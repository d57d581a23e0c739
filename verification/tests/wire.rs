use unsorted_sink::data::{DataA, DataB, DataC, DataD, DataE, Record, Timestamp};
use unsorted_sink::wire::{decode, encode};

fn bytes_of(record: &Record) -> Vec<u8> {
    let mut out = vec![];
    encode(record, &mut out);
    out
}

fn header(source: u8, timestamp: u8) -> Vec<u8> {
    let mut bytes = vec![source, 0, 0, 0, timestamp];
    bytes.extend([0u8; 15]);
    bytes
}

#[test]
fn layout_of_each_variant() {
    let mut expected = header(0, 5);
    expected.extend([3, 0, 0, 0, 0, 0, 0, 0, b'f', b'o', b'o']);
    assert_eq!(
        bytes_of(&Record::A(DataA {
            timestamp: Timestamp(5),
            foo: "foo".to_string(),
        })),
        expected
    );

    let mut expected = header(1, 6);
    expected.push(1);
    assert_eq!(
        bytes_of(&Record::B(DataB {
            timestamp: Timestamp(6),
            bar: true,
        })),
        expected
    );
    let mut expected = header(1, 6);
    expected.push(0);
    assert_eq!(
        bytes_of(&Record::B(DataB {
            timestamp: Timestamp(6),
            bar: false,
        })),
        expected
    );

    let mut expected = header(2, 7);
    expected.extend([1, 0, 0, 0, 0, 2, 0, 0]);
    assert_eq!(
        bytes_of(&Record::C(DataC {
            timestamp: Timestamp(7),
            baz: (1, 512),
        })),
        expected
    );

    assert_eq!(
        bytes_of(&Record::D(DataD {
            timestamp: Timestamp(8),
            abc: (),
        })),
        header(3, 8)
    );

    let mut expected = header(4, 9);
    expected.extend([2, 0, 0, 0, 0, 0, 0, 0, 3, 0, 0x34, 0x12]);
    assert_eq!(
        bytes_of(&Record::E(DataE {
            timestamp: Timestamp(9),
            def: vec![3, 0x1234],
        })),
        expected
    );
}

#[test]
fn timestamp_is_little_endian_over_sixteen_bytes() {
    let bytes = bytes_of(&Record::D(DataD {
        timestamp: Timestamp(0x0102_0304_0506_0708_090a_0b0c_0d0e_0f10),
        abc: (),
    }));
    assert_eq!(
        bytes[4..],
        [16, 15, 14, 13, 12, 11, 10, 9, 8, 7, 6, 5, 4, 3, 2, 1]
    );
}

#[test]
fn encode_appends_behind_what_is_there() {
    let mut out = vec![9, 9];
    encode(
        &Record::D(DataD {
            timestamp: Timestamp(1),
            abc: (),
        }),
        &mut out,
    );
    let mut expected = vec![9, 9];
    expected.extend(header(3, 1));
    assert_eq!(out, expected);
}

#[test]
fn layout_is_that_of_bincode_on_the_fields() {
    assert_eq!(
        bytes_of(&Record::A(DataA {
            timestamp: Timestamp(77),
            foo: "grüße".to_string(),
        })),
        bincode::serialize(&(0u32, 77u128, "grüße")).unwrap()
    );
    assert_eq!(
        bytes_of(&Record::B(DataB {
            timestamp: Timestamp(78),
            bar: true,
        })),
        bincode::serialize(&(1u32, 78u128, true)).unwrap()
    );
    assert_eq!(
        bytes_of(&Record::C(DataC {
            timestamp: Timestamp(79),
            baz: (70_000, 3),
        })),
        bincode::serialize(&(2u32, 79u128, (70_000u32, 3u32))).unwrap()
    );
    assert_eq!(
        bytes_of(&Record::D(DataD {
            timestamp: Timestamp(80),
            abc: (),
        })),
        bincode::serialize(&(3u32, 80u128, ())).unwrap()
    );
    assert_eq!(
        bytes_of(&Record::E(DataE {
            timestamp: Timestamp(81),
            def: vec![5, 1, 2],
        })),
        bincode::serialize(&(4u32, 81u128, vec![5u16, 1, 2])).unwrap()
    );
}

#[test]
fn decode_gives_the_record_and_its_length() {
    let record = Record::E(DataE {
        timestamp: Timestamp(81),
        def: vec![5, 1, 2],
    });
    let mut bytes = bytes_of(&record);
    assert_eq!(bytes.len(), 34);
    bytes.extend([0xaa, 0xbb]);
    assert_eq!(decode(&bytes), Some((record, 34)));

    let record = Record::A(DataA {
        timestamp: Timestamp(1),
        foo: "é".to_string(),
    });
    assert_eq!(decode(&bytes_of(&record)), Some((record, 30)));

    let record = Record::C(DataC {
        timestamp: Timestamp(2),
        baz: (4, 5),
    });
    assert_eq!(decode(&bytes_of(&record)), Some((record, 28)));

    let record = Record::B(DataB {
        timestamp: Timestamp(3),
        bar: false,
    });
    assert_eq!(decode(&bytes_of(&record)), Some((record, 21)));

    let record = Record::D(DataD {
        timestamp: Timestamp(4),
        abc: (),
    });
    assert_eq!(decode(&bytes_of(&record)), Some((record, 20)));
}

#[test]
fn decode_turns_down_what_is_no_record() {
    assert_eq!(decode(&[]), None);
    assert_eq!(decode(&header(3, 1)[..19]), None);
    // no such source
    assert_eq!(decode(&header(5, 1)), None);
    // a bool that is neither 0 nor 1
    let mut bytes = header(1, 1);
    bytes.push(2);
    assert_eq!(decode(&bytes), None);
    // a bool that is not there
    assert_eq!(decode(&header(1, 1)), None);
    // half a pair
    let mut bytes = header(2, 1);
    bytes.extend([1, 0, 0, 0, 2, 0, 0]);
    assert_eq!(decode(&bytes), None);
    // a string shorter than its length says
    let mut bytes = header(0, 1);
    bytes.extend([4, 0, 0, 0, 0, 0, 0, 0, b'a', b'b', b'c']);
    assert_eq!(decode(&bytes), None);
    // a string that is not UTF-8
    let mut bytes = header(0, 1);
    bytes.extend([2, 0, 0, 0, 0, 0, 0, 0, 0xc3, 0x28]);
    assert_eq!(decode(&bytes), None);
    // a vector with half an item
    let mut bytes = header(4, 1);
    bytes.extend([2, 0, 0, 0, 0, 0, 0, 0, 1, 0, 2]);
    assert_eq!(decode(&bytes), None);
    // a length far beyond the bytes
    let mut bytes = header(4, 1);
    bytes.extend([0xff; 8]);
    bytes.extend([1, 0, 2, 0]);
    assert_eq!(decode(&bytes), None);
    let mut bytes = header(0, 1);
    bytes.extend([0xff; 8]);
    bytes.extend([b'a']);
    assert_eq!(decode(&bytes), None);
}
