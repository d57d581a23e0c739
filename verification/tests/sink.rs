use unsorted_sink::buffer::on_disk::CorruptRun;
use unsorted_sink::data::{DataA, DataB, DataC, DataD, DataE, Record, Timestamp};
use unsorted_sink::output::Writer;
use unsorted_sink::{
    find_earliest_timestamp, BatchError, BufferConfig, NewRecordsAvailable, SortedOutputListenLoop,
    UnsortedDataSinkLoop,
};

/// A sink together with what stands for the directory of its runs.
struct Stored {
    sink: UnsortedDataSinkLoop,
    files: Vec<(usize, Vec<u8>)>,
}

impl Stored {
    fn new() -> Self {
        Stored {
            sink: UnsortedDataSinkLoop::new(BufferConfig {
                max_in_memory: 3,
                file_read_buf_capacity: 8_192,
            }),
            files: vec![],
        }
    }

    fn contents(&self) -> Vec<Vec<u8>> {
        self.sink
            .files()
            .into_iter()
            .map(|(id, from)| {
                let (_, bytes) = self
                    .files
                    .iter()
                    .find(|(stored, _)| *stored == id)
                    .expect("the run was stored");
                bytes[from..].to_vec()
            })
            .collect()
    }

    /// What whoever runs the sink does with a record.
    fn on_record(&mut self, record: Record) -> Option<NewRecordsAvailable> {
        if let Some(spill) = self.sink.on_record(record) {
            self.files.push((spill.id, spill.bytes));
        }
        self.sink.due()?;
        let (notice, spill) = self
            .sink
            .dump(self.contents())
            .expect("the runs are as they were stored");
        if let Some(spill) = spill {
            self.files.push((spill.id, spill.bytes));
        }
        notice
    }

    fn take_output(&mut self) -> Vec<u8> {
        self.sink.take_output()
    }
}

fn a(ts: u128) -> Record {
    Record::A(DataA {
        timestamp: Timestamp(ts),
        foo: "foo".to_string(),
    })
}

fn b(ts: u128) -> Record {
    Record::B(DataB {
        timestamp: Timestamp(ts),
        bar: false,
    })
}

fn c(ts: u128) -> Record {
    Record::C(DataC {
        timestamp: Timestamp(ts),
        baz: (0, 512),
    })
}

fn d(ts: u128) -> Record {
    Record::D(DataD {
        timestamp: Timestamp(ts),
        abc: (),
    })
}

fn e(ts: u128) -> Record {
    Record::E(DataE {
        timestamp: Timestamp(ts),
        def: vec![5, 1, 2],
    })
}

fn sink() -> Stored {
    Stored::new()
}

fn bytes_of(timestamps: &[u128]) -> Vec<u8> {
    let mut writer = Writer::open();
    for ts in timestamps {
        writer.write(&d(*ts));
    }
    writer.flush();
    writer.take_flushed()
}

fn notice(count: usize) -> NewRecordsAvailable {
    NewRecordsAvailable::new(count).expect("not zero")
}

#[test]
fn find_min_timestamp() {
    let items = [None, Some(Timestamp(45))];
    assert_eq!(find_earliest_timestamp(&items), None);

    let items = [Some(Timestamp(0)), None, Some(Timestamp(45))];
    assert_eq!(find_earliest_timestamp(&items), None);

    let items = [
        Some(Timestamp(100)),
        Some(Timestamp(5)),
        Some(Timestamp(45)),
    ];
    assert_eq!(find_earliest_timestamp(&items), Some(Timestamp(5)));
}

#[test]
fn no_timestamps_have_no_earliest() {
    assert_eq!(find_earliest_timestamp(&[]), None);
    assert_eq!(find_earliest_timestamp(&[None]), None);
    assert_eq!(
        find_earliest_timestamp(&[Some(Timestamp(3))]),
        Some(Timestamp(3))
    );
    assert_eq!(
        find_earliest_timestamp(&[Some(Timestamp(3)), Some(Timestamp(3)), None]),
        None
    );
}

#[test]
fn a_notice_is_never_for_zero_records() {
    assert_eq!(NewRecordsAvailable::new(0), None);
    assert_eq!(NewRecordsAvailable::new(1).map(|n| n.get()), Some(1));
    assert_eq!(
        NewRecordsAvailable::new(usize::MAX).map(|n| n.get()),
        Some(usize::MAX)
    );
}

#[test]
fn records_know_their_source() {
    assert_eq!(a(1).source(), 0);
    assert_eq!(b(1).source(), 1);
    assert_eq!(c(1).source(), 2);
    assert_eq!(d(1).source(), 3);
    assert_eq!(e(1).source(), 4);
    assert_eq!(e(17).timestamp(), Timestamp(17));
    assert!(a(3) <= e(3));
    assert!(a(3) < b(4));
    assert!(c(5) > d(4));
    assert_eq!(a(3).partial_cmp(&e(3)), Some(std::cmp::Ordering::Equal));
}

#[test]
fn data_converts_into_its_variant() {
    assert_eq!(
        Record::from(DataA {
            timestamp: Timestamp(1),
            foo: "foo".to_string(),
        }),
        a(1)
    );
    let record: Record = DataB {
        timestamp: Timestamp(2),
        bar: false,
    }
    .into();
    assert_eq!(record, b(2));
    assert_eq!(
        Record::from(DataC {
            timestamp: Timestamp(3),
            baz: (0, 512),
        }),
        c(3)
    );
    assert_eq!(
        Record::from(DataD {
            timestamp: Timestamp(4),
            abc: (),
        }),
        d(4)
    );
    assert_eq!(
        Record::from(DataE {
            timestamp: Timestamp(5),
            def: vec![5, 1, 2],
        }),
        e(5)
    );
}

#[test]
fn nothing_is_dumped_until_every_source_was_heard() {
    let mut sink = sink();
    for record in [a(10), b(3), c(12), d(7), a(20), b(4), c(13), d(1)] {
        assert_eq!(sink.on_record(record), None);
        assert!(sink.take_output().is_empty());
    }
    // the fifth source speaks: the watermark is the least of 20, 4, 13, 1, 9
    assert_eq!(sink.on_record(e(9)).map(|n| n.get()), Some(1));
    let mut listener = SortedOutputListenLoop::new();
    listener.feed(sink.take_output());
    assert_eq!(listener.on_new_records(&notice(1)), Ok(()));
    assert_eq!(listener.on_new_records(&notice(1)), Err(BatchError::Missing));
}

#[test]
fn watermark_follows_the_slowest_source() {
    let mut sink = sink();
    for record in [c(0), d(0), e(0)] {
        assert_eq!(sink.on_record(record), None);
    }
    let mut listener = SortedOutputListenLoop::new();

    // A and B as the two live sources: watermarks undefined, 0, 0, 0, 0
    assert_eq!(sink.on_record(a(10)), None);
    let first = sink.on_record(b(3)).expect("the three records at 0");
    assert_eq!(first.get(), 3);
    listener.feed(sink.take_output());
    assert_eq!(listener.on_new_records(&first), Ok(()));
    assert_eq!(sink.on_record(a(12)), None);
    assert_eq!(sink.on_record(b(7)), None);

    // the other sources move on: 20, 7, 8, 8, 8 gives 7
    assert_eq!(sink.on_record(c(8)), None);
    assert_eq!(sink.on_record(d(8)), None);
    let second = sink.on_record(e(8)).expect("3 and 7 are due");
    assert_eq!(second.get(), 2);
    listener.feed(sink.take_output());
    assert_eq!(listener.on_new_records(&second), Ok(()));

    // B advances: 20, 30, 8, 8, 8 gives 8
    let third = sink.on_record(b(30)).expect("the three records at 8");
    assert_eq!(third.get(), 3);
    // records after the watermark stay
    assert_eq!(sink.on_record(a(20)), None);
    listener.feed(sink.take_output());
    assert_eq!(listener.on_new_records(&third), Ok(()));
    assert_eq!(listener.on_new_records(&notice(1)), Err(BatchError::Missing));
}

#[test]
fn a_regressing_watermark_dumps_less() {
    let mut sink = sink();
    for record in [a(5), b(5), c(5), d(5)] {
        assert_eq!(sink.on_record(record), None);
    }
    assert_eq!(sink.on_record(e(5)).map(|n| n.get()), Some(5));
    assert_eq!(sink.on_record(a(9)), None);
    // a source falls back behind what was dumped: its record is due at once
    assert_eq!(sink.on_record(b(2)).map(|n| n.get()), Some(1));
    assert_eq!(sink.on_record(b(9)), None);
}

#[test]
fn a_batch_in_order_passes() {
    let mut listener = SortedOutputListenLoop::new();
    listener.feed(bytes_of(&[1, 3, 3, 5, 8, 12]));
    assert_eq!(listener.on_new_records(&notice(4)), Ok(()));
    assert_eq!(listener.on_new_records(&notice(2)), Ok(()));
    assert_eq!(listener.on_new_records(&notice(1)), Err(BatchError::Missing));
}

#[test]
fn order_is_checked_within_a_batch() {
    let mut listener = SortedOutputListenLoop::new();
    listener.feed(bytes_of(&[4, 6, 9, 1, 0]));
    assert_eq!(listener.on_new_records(&notice(2)), Ok(()));
    // 1 comes behind 9, in the same batch; both were read, 0 was not
    assert_eq!(
        listener.on_new_records(&notice(3)),
        Err(BatchError::OutOfOrder)
    );
    // 0 comes behind 1, which was read last
    assert_eq!(
        listener.on_new_records(&notice(1)),
        Err(BatchError::OutOfOrder)
    );
    assert_eq!(listener.on_new_records(&notice(1)), Err(BatchError::Missing));
}

#[test]
fn order_is_checked_across_batches() {
    let mut listener = SortedOutputListenLoop::new();
    listener.feed(bytes_of(&[10, 5, 5, 7]));
    assert_eq!(listener.on_new_records(&notice(1)), Ok(()));
    // 5 comes behind 10, which was the last record of the batch before
    assert_eq!(
        listener.on_new_records(&notice(1)),
        Err(BatchError::OutOfOrder)
    );
    // the record that was out of order was read: 5 and 7 follow it in order
    assert_eq!(listener.on_new_records(&notice(2)), Ok(()));
    // a record that is missing leaves the last timestamp as it was
    assert_eq!(listener.on_new_records(&notice(1)), Err(BatchError::Missing));
    listener.feed(bytes_of(&[6]));
    assert_eq!(
        listener.on_new_records(&notice(1)),
        Err(BatchError::OutOfOrder)
    );
    listener.feed(bytes_of(&[6]));
    assert_eq!(listener.on_new_records(&notice(1)), Ok(()));
}

#[test]
fn a_missing_record_leaves_the_earlier_ones_read() {
    let mut listener = SortedOutputListenLoop::new();
    listener.feed(bytes_of(&[1, 2]));
    assert_eq!(listener.on_new_records(&notice(3)), Err(BatchError::Missing));
    listener.feed(bytes_of(&[2, 7]));
    assert_eq!(listener.on_new_records(&notice(2)), Ok(()));
}

#[test]
fn the_watermark_is_due_once_every_source_was_heard() {
    let mut sink = UnsortedDataSinkLoop::new(BufferConfig {
        max_in_memory: 2,
        file_read_buf_capacity: 64,
    });
    assert_eq!(sink.read_buf_capacity(), 64);
    assert_eq!(sink.due(), None);
    assert_eq!(sink.on_record(a(10)), None);
    let spill = sink.on_record(b(3)).expect("the run is full");
    assert_eq!(spill.id, 0);
    assert_eq!(sink.files(), vec![(0, 0)]);
    for record in [c(12), d(7)] {
        sink.on_record(record);
        assert_eq!(sink.due(), None);
    }
    assert_eq!(sink.files(), vec![(0, 0), (1, 0)]);
    assert_eq!(sink.on_record(e(20)), None);
    assert_eq!(sink.due(), Some(Timestamp(3)));
    assert_eq!(sink.resident_count(), 5);
    assert_eq!(sink.spill_count(), 2);
}

#[test]
fn a_dump_on_a_corrupt_run_is_an_error() {
    let mut stored = sink();
    for record in [a(5), b(5), c(5), d(5)] {
        assert_eq!(stored.on_record(record), None);
    }
    if let Some(spill) = stored.sink.on_record(e(5)) {
        stored.files.push((spill.id, spill.bytes));
    }
    assert_eq!(stored.sink.due(), Some(Timestamp(5)));
    let mut contents = stored.contents();
    assert_eq!(contents.len(), 1);
    contents[0][0] = 7;
    assert_eq!(stored.sink.dump(contents), Err(CorruptRun { id: 0 }));
    assert_eq!(stored.sink.due(), Some(Timestamp(5)));
    assert!(stored.take_output().is_empty());
    let (notice, spill) = stored.sink.dump(stored.contents()).unwrap();
    assert_eq!(notice.map(|n| n.get()), Some(5));
    assert_eq!(spill, None);
    assert_eq!(stored.sink.files(), vec![]);
}
