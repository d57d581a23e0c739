use rand::prelude::IteratorRandom;
use rand::thread_rng;
use std::collections::HashMap;
use unsorted_sink::buffer::in_memory;
use unsorted_sink::buffer::on_disk::CorruptRun;
use unsorted_sink::buffer::{Buffer, Config, DumpedCount, Spill};
use unsorted_sink::data::{DataA, DataB, DataC, DataE, Record, Timestamp};
use unsorted_sink::output::{Reader, Writer};

fn in_memory_factory() -> in_memory::Buffer {
    let mut buffer = in_memory::Buffer::with_capacity(256);

    buffer.push(Record::A(DataA {
        timestamp: Timestamp(5),
        foo: "foo".to_string(),
    }));
    buffer.push(Record::C(DataC {
        timestamp: Timestamp(2),
        baz: (1, 2),
    }));
    buffer.push(Record::E(DataE {
        timestamp: Timestamp(10),
        def: vec![3, 1, 2],
    }));

    buffer
}

fn a(ts: u128) -> Record {
    Record::A(DataA {
        timestamp: Timestamp(ts),
        foo: "foo".to_owned(),
    })
}

fn buffer_of(max_in_memory: usize) -> Buffer {
    Buffer::new(Config {
        max_in_memory,
        file_read_buf_capacity: 8_192,
    })
}

/// Stands for the directory that the runs are stored in.
struct Disk {
    files: HashMap<usize, Vec<u8>>,
}

impl Disk {
    fn new() -> Self {
        Disk {
            files: HashMap::new(),
        }
    }

    fn store(&mut self, spill: Option<Spill>) {
        if let Some(spill) = spill {
            let earlier = self.files.insert(spill.id, spill.bytes);
            assert!(earlier.is_none(), "a run is stored once");
        }
    }

    fn read(&self, files: Vec<(usize, usize)>) -> Vec<Vec<u8>> {
        files
            .into_iter()
            .map(|(id, from)| self.files[&id][from..].to_vec())
            .collect()
    }
}

fn push(sut: &mut Buffer, disk: &mut Disk, record: Record) {
    let spill = sut.push_record(record);
    disk.store(spill);
}

fn dump(sut: &mut Buffer, disk: &mut Disk, writer: &mut Writer, ts: u128) -> DumpedCount {
    let contents = if sut.is_due(Timestamp(ts)) {
        disk.read(sut.files())
    } else {
        vec![]
    };
    let (count, spill) = sut
        .dump_safe(writer, Timestamp(ts), contents)
        .expect("the runs are as they were stored");
    disk.store(spill);
    count
}

fn read_timestamps(writer: &mut Writer, reader: &mut Reader) -> Vec<u128> {
    reader.feed(writer.take_flushed());
    let mut seen = vec![];
    while let Ok(record) = reader.read() {
        seen.push(record.timestamp().0);
    }
    seen
}

#[test]
fn dump_in_memory_and_read_from_disk() {
    let mut in_memory = in_memory_factory();

    let (file, bytes) = in_memory
        .drain_into_file(0)
        .expect("in-memory isn't empty");
    let mut reader = file.read(8_192, bytes).unwrap();

    assert_eq!(in_memory.len(), 0);
    assert_eq!(reader.last().unwrap().timestamp(), Timestamp(2));

    reader.read_next();
    assert_eq!(reader.last().unwrap().timestamp(), Timestamp(5));

    reader.read_next();
    assert_eq!(reader.last().unwrap().timestamp(), Timestamp(10));

    reader.read_next();
    assert!(reader.last().is_none());

    let (file, _) = reader.close();
    assert!(file.is_empty());
}

#[test]
fn reading_same_record_from_disk_repeatedly() {
    let mut in_memory = in_memory_factory();

    let (mut file, bytes) = in_memory
        .drain_into_file(0)
        .expect("in-memory isn't empty");

    for _ in 0..5 {
        let reader = file.read(8_192, bytes[file.position()..].to_vec()).unwrap();
        assert_eq!(
            reader
                .last()
                .expect("we never call `read_next`")
                .timestamp(),
            Timestamp(2)
        );
        file = reader.close().0;
    }

    let mut reader = file.read(8_192, bytes[file.position()..].to_vec()).unwrap();
    reader.read_next();
    reader.read_next();
    reader.read_next();
    assert!(reader.last().is_none());
}

#[test]
fn process_a_few_records_in_buffer() {
    let mut disk = Disk::new();
    let mut writer = Writer::open();
    let mut reader = Reader::open();
    let mut sut = Buffer::new(Config {
        max_in_memory: 10,
        file_read_buf_capacity: 8_192,
    });

    push(
        &mut sut,
        &mut disk,
        Record::A(DataA {
            timestamp: Timestamp(5),
            foo: "foo".to_owned(),
        }),
    );
    push(
        &mut sut,
        &mut disk,
        Record::A(DataA {
            timestamp: Timestamp(1),
            foo: "foo".to_owned(),
        }),
    );
    push(
        &mut sut,
        &mut disk,
        Record::A(DataA {
            timestamp: Timestamp(3),
            foo: "foo".to_owned(),
        }),
    );

    let DumpedCount(count) = dump(&mut sut, &mut disk, &mut writer, 10);
    assert_eq!(count, 3);

    reader.feed(writer.take_flushed());
    assert_eq!(reader.read().unwrap().timestamp(), Timestamp(1));
    assert_eq!(reader.read().unwrap().timestamp(), Timestamp(3));
    assert_eq!(reader.read().unwrap().timestamp(), Timestamp(5));
    let _ = reader.read().unwrap_err();
}

#[test]
fn random_million_records_is_sorted() {
    const RECORDS: usize = 1_000_000;

    let mut disk = Disk::new();
    let mut writer = Writer::open();
    let mut sut = Buffer::new(Config {
        max_in_memory: 100_000,
        file_read_buf_capacity: 8_192,
    });

    for _ in 0..RECORDS {
        let record = Record::E(DataE {
            timestamp: Timestamp(
                (0..RECORDS as u128)
                    .choose(&mut thread_rng())
                    .expect("there is a plenty of choice"),
            ),
            def: vec![],
        });
        push(&mut sut, &mut disk, record);
    }

    let count = dump(&mut sut, &mut disk, &mut writer, RECORDS as u128);
    assert_eq!(count.0, RECORDS);

    let mut reader = Reader::open();
    reader.feed(writer.take_flushed());
    let mut prev_ts = reader.read().unwrap().timestamp();
    for _ in 1..RECORDS {
        let ts = reader.read().unwrap().timestamp();
        assert!(prev_ts <= ts);
        prev_ts = ts;
    }
    reader.read().expect_err("there must be no records left");
}

#[test]
fn heap_pops_earliest_first() {
    let mut heap = in_memory::Buffer::with_capacity(8);
    for ts in [7u128, 2, 9, 1, 4, 4, 0] {
        heap.push(a(ts));
    }
    assert_eq!(heap.len(), 7);
    assert!(!heap.is_full());
    heap.push(a(3));
    assert!(heap.is_full());

    let mut seen = vec![];
    while let Some(record) = heap.pop() {
        seen.push(record.timestamp().0);
    }
    assert_eq!(seen, vec![0, 1, 2, 3, 4, 4, 7, 9]);
    assert_eq!(heap.len(), 0);
    assert!(heap.pop().is_none());
}

#[test]
fn draining_an_empty_heap_gives_no_file() {
    let mut heap = in_memory::Buffer::with_capacity(4);
    assert!(heap.drain_into_file(0).is_none());
    assert_eq!(heap.len(), 0);
}

#[test]
fn run_keeps_payloads_and_variants() {
    let mut heap = in_memory::Buffer::with_capacity(4);
    heap.push(Record::E(DataE {
        timestamp: Timestamp(9),
        def: vec![3, 1, 2],
    }));
    heap.push(Record::B(DataB {
        timestamp: Timestamp(4),
        bar: true,
    }));
    let (file, bytes) = heap.drain_into_file(7).expect("two records");
    assert_eq!(file.id(), 7);
    assert_eq!(file.position(), 0);
    assert_eq!(bytes.len(), 21 + 34);
    let mut reader = file.read(16, bytes).unwrap();
    assert_eq!(
        reader.last(),
        Some(&Record::B(DataB {
            timestamp: Timestamp(4),
            bar: true,
        }))
    );
    reader.read_next();
    assert_eq!(
        reader.last(),
        Some(&Record::E(DataE {
            timestamp: Timestamp(9),
            def: vec![3, 1, 2],
        }))
    );
    reader.read_next();
    assert_eq!(reader.last(), None);
    reader.read_next();
    assert_eq!(reader.last(), None);
}

#[test]
fn closing_mid_run_resumes_at_the_record_at_hand() {
    let mut heap = in_memory::Buffer::with_capacity(4);
    for ts in [10u128, 2, 5] {
        heap.push(a(ts));
    }
    let (file, stored) = heap.drain_into_file(0).expect("three records");
    assert_eq!(stored.len(), 3 * 31);
    let mut reader = file.read(8_192, stored.clone()).unwrap();
    reader.read_next();
    assert_eq!(reader.last().unwrap().timestamp(), Timestamp(5));
    let (mut file, bytes) = reader.close();
    assert_eq!(bytes, stored);
    assert!(!file.is_empty());
    assert_eq!(file.position(), 31);
    for _ in 0..3 {
        let reader = file.read(8_192, stored[31..].to_vec()).unwrap();
        assert_eq!(reader.last().unwrap().timestamp(), Timestamp(5));
        file = reader.close().0;
        assert_eq!(file.position(), 31);
    }
    let mut reader = file.read(8_192, stored[31..].to_vec()).unwrap();
    reader.read_next();
    assert_eq!(reader.last().unwrap().timestamp(), Timestamp(10));
    reader.read_next();
    assert!(reader.last().is_none());
    let (file, _) = reader.close();
    assert!(file.is_empty());
    assert_eq!(file.position(), 93);
    assert!(file.read(8_192, vec![]).is_ok());
}

#[test]
fn bytes_that_are_not_the_run_are_turned_down() {
    let mut heap = in_memory::Buffer::with_capacity(4);
    for ts in [10u128, 2, 5] {
        heap.push(a(ts));
    }
    let (file, stored) = heap.drain_into_file(3).expect("three records");
    let corrupt = Some(CorruptRun { id: 3 });

    // cut short, within a record and between records
    assert_eq!(file.read(8, stored[..92].to_vec()).err(), corrupt);
    assert_eq!(file.read(8, stored[..62].to_vec()).err(), corrupt);
    assert_eq!(file.read(8, vec![]).err(), corrupt);
    // more than the run
    let mut longer = stored.clone();
    longer.extend(&stored[..31]);
    assert_eq!(file.read(8, longer).err(), corrupt);
    let mut longer = stored.clone();
    longer.push(0);
    assert_eq!(file.read(8, longer).err(), corrupt);
    // out of order: the timestamp of the second record moved before the first
    let mut unsorted = stored.clone();
    unsorted[31 + 4] = 1;
    assert_eq!(file.read(8, unsorted).err(), corrupt);
    // no record at all
    let mut garbled = stored.clone();
    garbled[0] = 9;
    assert_eq!(file.read(8, garbled).err(), corrupt);
    // other records, as many and sorted: a run
    let mut other = stored.clone();
    other[4] = 1;
    let reader = file.read(8, other).unwrap();
    assert_eq!(reader.last().unwrap().timestamp(), Timestamp(1));
    // and the run itself
    let reader = file.read(8, stored).unwrap();
    assert_eq!(reader.last().unwrap().timestamp(), Timestamp(2));
}

#[test]
fn spill_and_merge() {
    let mut writer = Writer::open();
    let mut reader = Reader::open();
    let mut disk = Disk::new();
    let mut sut = buffer_of(2);
    for ts in [7u128, 2, 9, 1, 4] {
        push(&mut sut, &mut disk, a(ts));
    }
    assert_eq!(sut.spill_count(), 2);
    assert_eq!(sut.resident_count(), 5);

    let count = dump(&mut sut, &mut disk, &mut writer, 10);
    assert_eq!(count, DumpedCount(5));
    assert_eq!(sut.spill_count(), 3);
    assert_eq!(sut.resident_count(), 0);
    assert_eq!(read_timestamps(&mut writer, &mut reader), vec![1, 2, 4, 7, 9]);
}

#[test]
fn partial_dump() {
    let mut writer = Writer::open();
    let mut reader = Reader::open();
    let mut disk = Disk::new();
    let mut sut = buffer_of(10);
    for ts in [5u128, 1, 8, 3, 12] {
        push(&mut sut, &mut disk, a(ts));
    }

    assert_eq!(dump(&mut sut, &mut disk, &mut writer, 5), DumpedCount(3));
    assert_eq!(sut.resident_count(), 2);
    assert_eq!(sut.earliest_timestamp(), Some(Timestamp(8)));
    assert_eq!(read_timestamps(&mut writer, &mut reader), vec![1, 3, 5]);

    assert_eq!(dump(&mut sut, &mut disk, &mut writer, 12), DumpedCount(2));
    assert_eq!(sut.resident_count(), 0);
    assert_eq!(sut.earliest_timestamp(), None);
    assert_eq!(read_timestamps(&mut writer, &mut reader), vec![8, 12]);
}

#[test]
fn dump_below_the_earliest_changes_nothing() {
    let mut writer = Writer::open();
    let mut disk = Disk::new();
    let mut sut = buffer_of(10);
    push(&mut sut, &mut disk, a(5));
    push(&mut sut, &mut disk, a(7));

    assert_eq!(dump(&mut sut, &mut disk, &mut writer, 4), DumpedCount(0));
    assert_eq!(sut.resident_count(), 2);
    assert_eq!(sut.spill_count(), 0);
    assert_eq!(sut.earliest_timestamp(), Some(Timestamp(5)));
    assert!(writer.take_flushed().is_empty());
}

#[test]
fn dump_of_an_empty_buffer_is_nothing() {
    let mut writer = Writer::open();
    let mut disk = Disk::new();
    let mut sut = buffer_of(3);
    assert_eq!(dump(&mut sut, &mut disk, &mut writer, u128::MAX), DumpedCount(0));
    assert_eq!(sut.spill_count(), 0);
    assert!(writer.take_flushed().is_empty());
}

#[test]
fn a_record_is_dumped_once() {
    let mut writer = Writer::open();
    let mut reader = Reader::open();
    let mut disk = Disk::new();
    let mut sut = buffer_of(3);
    push(&mut sut, &mut disk, a(4));
    assert_eq!(dump(&mut sut, &mut disk, &mut writer, 3), DumpedCount(0));
    assert_eq!(dump(&mut sut, &mut disk, &mut writer, 4), DumpedCount(1));
    assert_eq!(dump(&mut sut, &mut disk, &mut writer, 4), DumpedCount(0));
    assert_eq!(dump(&mut sut, &mut disk, &mut writer, 9), DumpedCount(0));
    assert_eq!(read_timestamps(&mut writer, &mut reader), vec![4]);
}

#[test]
fn pushes_and_dumps_conserve_the_count() {
    let mut writer = Writer::open();
    let mut disk = Disk::new();
    let mut sut = buffer_of(4);
    let mut pushed = 0;
    let mut dumped = 0;
    for round in 0u128..20 {
        for k in 0u128..7 {
            push(&mut sut, &mut disk, a((round * 13 + k * 5) % 31));
            pushed += 1;
            assert_eq!(sut.pushed_count(), pushed);
            assert_eq!(sut.resident_count(), pushed - dumped);
        }
        dumped += dump(&mut sut, &mut disk, &mut writer, round).0;
        assert_eq!(sut.resident_count(), pushed - dumped);
    }
    dumped += dump(&mut sut, &mut disk, &mut writer, 31).0;
    assert_eq!(dumped, pushed);
    assert_eq!(sut.resident_count(), 0);
}

#[test]
fn a_late_record_is_dumped_behind_later_ones() {
    let mut writer = Writer::open();
    let mut reader = Reader::open();
    let mut disk = Disk::new();
    let mut sut = buffer_of(2);
    push(&mut sut, &mut disk, a(6));
    assert_eq!(dump(&mut sut, &mut disk, &mut writer, 6), DumpedCount(1));
    push(&mut sut, &mut disk, a(2));
    assert_eq!(sut.earliest_timestamp(), Some(Timestamp(2)));
    assert_eq!(dump(&mut sut, &mut disk, &mut writer, 6), DumpedCount(1));
    assert_eq!(read_timestamps(&mut writer, &mut reader), vec![6, 2]);
}

#[test]
fn equal_timestamps_leave_the_older_run_first() {
    let mut writer = Writer::open();
    let mut reader = Reader::open();
    let mut disk = Disk::new();
    let mut sut = buffer_of(1);
    push(
        &mut sut,
        &mut disk,
        Record::B(DataB {
            timestamp: Timestamp(3),
            bar: true,
        }),
    );
    push(
        &mut sut,
        &mut disk,
        Record::B(DataB {
            timestamp: Timestamp(3),
            bar: false,
        }),
    );
    assert_eq!(dump(&mut sut, &mut disk, &mut writer, 3), DumpedCount(2));
    reader.feed(writer.take_flushed());
    assert_eq!(
        reader.read(),
        Ok(Record::B(DataB {
            timestamp: Timestamp(3),
            bar: true,
        }))
    );
    assert_eq!(
        reader.read(),
        Ok(Record::B(DataB {
            timestamp: Timestamp(3),
            bar: false,
        }))
    );
}

#[test]
fn in_memory_run_stays_below_its_capacity() {
    let mut writer = Writer::open();
    let mut disk = Disk::new();
    let mut sut = buffer_of(3);
    let mut spills = 0;
    for k in 0u128..10 {
        push(&mut sut, &mut disk, a(100 - k));
        assert!(sut.in_memory_count() < 3);
        assert_eq!(sut.in_memory_count(), (k as usize + 1) % 3);
        if (k + 1) % 3 == 0 {
            spills += 1;
        }
        assert_eq!(sut.spill_count(), spills);
    }
    assert_eq!(dump(&mut sut, &mut disk, &mut writer, 95), DumpedCount(5));
    assert_eq!(sut.in_memory_count(), 0);
    assert_eq!(sut.spill_count(), 4);
    assert_eq!(sut.resident_count(), 5);
}

#[test]
fn spills_are_handed_out_to_be_stored() {
    let mut sut = buffer_of(2);
    assert_eq!(sut.push_record(a(7)), None);
    assert!(sut.files().is_empty());
    let spill = sut.push_record(a(2)).expect("the run is full");
    assert_eq!(spill.id, 0);
    assert_eq!(spill.bytes.len(), 62);
    assert_eq!(spill.bytes[4], 2);
    assert_eq!(spill.bytes[31 + 4], 7);
    assert_eq!(sut.files(), vec![(0, 0)]);
    assert_eq!(sut.push_record(a(9)), None);
    let spill = sut.push_record(a(1)).expect("the run is full");
    assert_eq!(spill.id, 1);
    assert_eq!(sut.files(), vec![(0, 0), (1, 0)]);
    assert_eq!(sut.read_buf_capacity(), 8_192);
}

#[test]
fn a_dump_moves_the_cursors_and_drops_used_up_runs() {
    let mut disk = Disk::new();
    let mut writer = Writer::open();
    let mut sut = buffer_of(2);
    for ts in [7u128, 2, 9, 1, 4] {
        push(&mut sut, &mut disk, a(ts));
    }
    assert!(!sut.is_due(Timestamp(0)));
    assert!(sut.is_due(Timestamp(1)));
    assert_eq!(
        sut.dump_safe(&mut writer, Timestamp(0), vec![]),
        Ok((DumpedCount(0), None))
    );

    // 1, 2 and 4 go: of the first run 7 is left, of the second 9, of the
    // in-memory run nothing
    let contents = disk.read(sut.files());
    assert_eq!(
        sut.dump_safe(&mut writer, Timestamp(5), contents),
        Ok((DumpedCount(3), None))
    );
    assert_eq!(sut.files(), vec![(0, 31), (1, 31)]);
    assert_eq!(sut.spill_count(), 3);

    // 7 goes: the first run is used up; 8 comes in and stays in a new run
    push(&mut sut, &mut disk, a(8));
    let contents = disk.read(sut.files());
    let (count, spill) = sut.dump_safe(&mut writer, Timestamp(7), contents).unwrap();
    assert_eq!(count, DumpedCount(1));
    let spill = spill.expect("8 is left of the in-memory run");
    assert_eq!(spill.id, 3);
    assert_eq!(spill.bytes.len(), 31);
    assert_eq!(sut.files(), vec![(1, 31), (3, 0)]);
    assert_eq!(sut.earliest_timestamp(), Some(Timestamp(8)));
}

#[test]
fn a_dump_on_a_corrupt_run_changes_nothing() {
    let mut disk = Disk::new();
    let mut writer = Writer::open();
    let mut sut = buffer_of(2);
    for ts in [7u128, 2, 9, 1, 4] {
        push(&mut sut, &mut disk, a(ts));
    }
    let mut contents = disk.read(sut.files());
    contents[1].pop();
    assert_eq!(
        sut.dump_safe(&mut writer, Timestamp(5), contents),
        Err(CorruptRun { id: 1 })
    );
    assert_eq!(sut.files(), vec![(0, 0), (1, 0)]);
    assert_eq!(sut.resident_count(), 5);
    assert_eq!(sut.in_memory_count(), 1);
    assert_eq!(sut.spill_count(), 2);
    writer.flush();
    assert!(writer.take_flushed().is_empty());

    // the runs as they were stored are taken
    assert_eq!(dump(&mut sut, &mut disk, &mut writer, 5), DumpedCount(3));
}

#[test]
fn equal_heads_leave_in_run_order() {
    let mut disk = Disk::new();
    let mut writer = Writer::open();
    let mut reader = Reader::open();
    let mut sut = buffer_of(1);
    push(
        &mut sut,
        &mut disk,
        Record::A(DataA {
            timestamp: Timestamp(3),
            foo: "x".to_owned(),
        }),
    );
    push(
        &mut sut,
        &mut disk,
        Record::B(DataB {
            timestamp: Timestamp(3),
            bar: true,
        }),
    );
    assert_eq!(sut.files(), vec![(0, 0), (1, 0)]);
    assert_eq!(dump(&mut sut, &mut disk, &mut writer, 3), DumpedCount(2));
    reader.feed(writer.take_flushed());
    assert_eq!(
        reader.read(),
        Ok(Record::A(DataA {
            timestamp: Timestamp(3),
            foo: "x".to_owned(),
        }))
    );
    assert_eq!(
        reader.read(),
        Ok(Record::B(DataB {
            timestamp: Timestamp(3),
            bar: true,
        }))
    );
    assert!(reader.read().is_err());
}

#[test]
fn equal_timestamps_of_one_run_leave_in_file_order() {
    let mut disk = Disk::new();
    let mut writer = Writer::open();
    let mut reader = Reader::open();
    let mut sut = buffer_of(3);
    for record in [
        Record::B(DataB {
            timestamp: Timestamp(3),
            bar: true,
        }),
        Record::B(DataB {
            timestamp: Timestamp(3),
            bar: false,
        }),
        a(3),
    ] {
        push(&mut sut, &mut disk, record);
    }
    // the in-memory run comes behind the stored one
    push(&mut sut, &mut disk, a(3));
    let stored = disk.read(sut.files());
    assert_eq!(dump(&mut sut, &mut disk, &mut writer, 3), DumpedCount(4));
    reader.feed(writer.take_flushed());
    let mut written = vec![];
    encode_all(&mut reader, &mut written);
    assert_eq!(written[..stored[0].len()], stored[0][..]);
    assert_eq!(written.len(), stored[0].len() + 31);
}

fn encode_all(reader: &mut Reader, out: &mut Vec<u8>) {
    while let Ok(record) = reader.read() {
        unsorted_sink::wire::encode(&record, out);
    }
}
