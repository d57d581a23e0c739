use unsorted_sink::data::{DataA, DataB, DataC, DataD, DataE, Record, Timestamp};
use unsorted_sink::output::{ReadError, Reader, Writer};

#[test]
fn write_and_read_few_records() {
    let mut writer = Writer::open();
    let mut reader = Reader::open();

    writer.write(&Record::D(DataD {
        timestamp: Timestamp(51),
        abc: (),
    }));

    writer.write(&Record::C(DataC {
        timestamp: Timestamp(1),
        baz: (0, 1),
    }));
    writer.write(&Record::D(DataD {
        timestamp: Timestamp(100),
        abc: (),
    }));
    writer.flush();
    reader.feed(writer.take_flushed());

    assert!(matches!(reader.read().unwrap(), Record::D(x) if x.timestamp == Timestamp(51)));
    assert!(matches!(reader.read().unwrap(), Record::C(x) if x.timestamp == Timestamp(1)));
    assert!(matches!(reader.read().unwrap(), Record::D(x) if x.timestamp == Timestamp(100)));
}

#[test]
fn every_variant_reads_back_as_written() {
    let records = vec![
        Record::A(DataA {
            timestamp: Timestamp(u128::MAX),
            foo: "héllo, wörld ✓".to_string(),
        }),
        Record::A(DataA {
            timestamp: Timestamp(0),
            foo: String::new(),
        }),
        Record::B(DataB {
            timestamp: Timestamp(1 << 100),
            bar: true,
        }),
        Record::B(DataB {
            timestamp: Timestamp(7),
            bar: false,
        }),
        Record::C(DataC {
            timestamp: Timestamp(3),
            baz: (u32::MAX, 0x0102_0304),
        }),
        Record::D(DataD {
            timestamp: Timestamp(51),
            abc: (),
        }),
        Record::E(DataE {
            timestamp: Timestamp(9),
            def: vec![0, 1, 0xffff, 0x1234],
        }),
        Record::E(DataE {
            timestamp: Timestamp(10),
            def: vec![],
        }),
    ];
    let mut writer = Writer::open();
    for record in &records {
        writer.write(record);
    }
    writer.flush();
    let mut reader = Reader::open();
    reader.feed(writer.take_flushed());
    for record in &records {
        assert_eq!(reader.read().as_ref(), Ok(record));
    }
    assert_eq!(reader.read(), Err(ReadError::NoRecord));
}

#[test]
fn unflushed_records_are_not_taken() {
    let mut writer = Writer::open();
    writer.write(&Record::D(DataD {
        timestamp: Timestamp(1),
        abc: (),
    }));
    assert!(writer.take_flushed().is_empty());
    writer.flush();
    writer.write(&Record::D(DataD {
        timestamp: Timestamp(2),
        abc: (),
    }));
    assert_eq!(writer.take_flushed().len(), 20);
    assert!(writer.take_flushed().is_empty());
    writer.flush();
    assert_eq!(writer.take_flushed().len(), 20);
}

#[test]
fn a_record_cut_short_is_read_once_the_rest_is_fed() {
    let mut writer = Writer::open();
    let record = Record::A(DataA {
        timestamp: Timestamp(12),
        foo: "split".to_string(),
    });
    writer.write(&record);
    writer.flush();
    let bytes = writer.take_flushed();
    assert_eq!(bytes.len(), 33);

    let mut reader = Reader::open();
    for cut in [3usize, 19, 20, 27, 32] {
        let mut reader = Reader::open();
        reader.feed(bytes[..cut].to_vec());
        assert_eq!(reader.read(), Err(ReadError::NoRecord));
        reader.feed(bytes[cut..].to_vec());
        assert_eq!(reader.read().as_ref(), Ok(&record));
        assert_eq!(reader.read(), Err(ReadError::NoRecord));
    }
    assert_eq!(reader.read(), Err(ReadError::NoRecord));
}
