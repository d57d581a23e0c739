//! The record model: timestamped payloads of five source classes.

use std::cmp::Ordering;
use vstd::prelude::*;
use vstd::std_specs::cmp::PartialOrdSpecImpl;
use vstd::std_specs::convert::FromSpecImpl;

verus! {

/// Number of source classes, one per variant of [`Record`].
pub const SOURCES: usize = 5;

/// A point in time. Timestamps are compared by value only.
#[derive(Clone, Copy, Debug, PartialEq, Eq, Structural, PartialOrd, Ord, Hash)]
pub struct Timestamp(pub u128);

#[derive(Debug, PartialEq, Eq)]
pub struct DataA {
    pub timestamp: Timestamp,
    pub foo: String,
}

#[derive(Debug, PartialEq, Eq)]
pub struct DataB {
    pub timestamp: Timestamp,
    pub bar: bool,
}

#[derive(Debug, PartialEq, Eq)]
pub struct DataC {
    pub timestamp: Timestamp,
    pub baz: (u32, u32),
}

#[derive(Debug, PartialEq, Eq)]
pub struct DataD {
    pub timestamp: Timestamp,
    pub abc: (),
}

#[derive(Debug, PartialEq, Eq)]
pub struct DataE {
    pub timestamp: Timestamp,
    pub def: Vec<u16>,
}

/// Unification of all the data in a single enum.
///
/// The variant tells the source class; records are ordered by
/// [`Record::timestamp`] alone.
#[derive(Debug, PartialEq, Eq)]
pub enum Record {
    A(DataA),
    B(DataB),
    C(DataC),
    D(DataD),
    E(DataE),
}

/// The mathematical value of a [`Record`]: its variant, its timestamp and its
/// payload, with strings and vectors as sequences.
pub enum RecordView {
    A { timestamp: u128, foo: Seq<char> },
    B { timestamp: u128, bar: bool },
    C { timestamp: u128, baz: (u32, u32) },
    D { timestamp: u128 },
    E { timestamp: u128, def: Seq<u16> },
}

impl RecordView {
    /// The timestamp carried by the record, whatever its variant.
    pub open spec fn timestamp(self) -> u128 {
        match self {
            RecordView::A { timestamp, .. } => timestamp,
            RecordView::B { timestamp, .. } => timestamp,
            RecordView::C { timestamp, .. } => timestamp,
            RecordView::D { timestamp } => timestamp,
            RecordView::E { timestamp, .. } => timestamp,
        }
    }

    /// Index of the source class the record came from, in `0..SOURCES`.
    pub open spec fn source(self) -> int {
        match self {
            RecordView::A { .. } => 0,
            RecordView::B { .. } => 1,
            RecordView::C { .. } => 2,
            RecordView::D { .. } => 3,
            RecordView::E { .. } => 4,
        }
    }
}

impl View for Record {
    type V = RecordView;

    open spec fn view(&self) -> RecordView {
        match self {
            Record::A(x) => RecordView::A { timestamp: x.timestamp.0, foo: x.foo@ },
            Record::B(x) => RecordView::B { timestamp: x.timestamp.0, bar: x.bar },
            Record::C(x) => RecordView::C { timestamp: x.timestamp.0, baz: x.baz },
            Record::D(x) => RecordView::D { timestamp: x.timestamp.0 },
            Record::E(x) => RecordView::E { timestamp: x.timestamp.0, def: x.def@ },
        }
    }
}

impl Record {
    /// Unified method to access the timestamp.
    pub fn timestamp(&self) -> (ts: Timestamp)
        ensures
            ts.0 == self@.timestamp(),
    {
        match self {
            Record::A(x) => x.timestamp,
            Record::B(x) => x.timestamp,
            Record::C(x) => x.timestamp,
            Record::D(x) => x.timestamp,
            Record::E(x) => x.timestamp,
        }
    }

    /// Index of the source class this record came from.
    pub fn source(&self) -> (idx: usize)
        ensures
            idx == self@.source(),
            idx < SOURCES,
    {
        match self {
            Record::A(_) => 0,
            Record::B(_) => 1,
            Record::C(_) => 2,
            Record::D(_) => 3,
            Record::E(_) => 4,
        }
    }
}

impl PartialOrd for Record {
    /// Records are ordered by their timestamps alone.
    fn partial_cmp(&self, other: &Record) -> (order: Option<Ordering>) {
        let own = self.timestamp().0;
        let others = other.timestamp().0;
        if own < others {
            Some(Ordering::Less)
        } else if own == others {
            Some(Ordering::Equal)
        } else {
            Some(Ordering::Greater)
        }
    }
}

impl PartialOrdSpecImpl for Record {
    open spec fn obeys_partial_cmp_spec() -> bool {
        true
    }

    open spec fn partial_cmp_spec(&self, other: &Record) -> Option<Ordering> {
        if self@.timestamp() < other@.timestamp() {
            Some(Ordering::Less)
        } else if self@.timestamp() == other@.timestamp() {
            Some(Ordering::Equal)
        } else {
            Some(Ordering::Greater)
        }
    }
}

impl From<DataA> for Record {
    fn from(data: DataA) -> (record: Record) {
        Record::A(data)
    }
}

impl FromSpecImpl<DataA> for Record {
    open spec fn obeys_from_spec() -> bool {
        true
    }

    open spec fn from_spec(data: DataA) -> Record {
        Record::A(data)
    }
}

impl From<DataB> for Record {
    fn from(data: DataB) -> (record: Record) {
        Record::B(data)
    }
}

impl FromSpecImpl<DataB> for Record {
    open spec fn obeys_from_spec() -> bool {
        true
    }

    open spec fn from_spec(data: DataB) -> Record {
        Record::B(data)
    }
}

impl From<DataC> for Record {
    fn from(data: DataC) -> (record: Record) {
        Record::C(data)
    }
}

impl FromSpecImpl<DataC> for Record {
    open spec fn obeys_from_spec() -> bool {
        true
    }

    open spec fn from_spec(data: DataC) -> Record {
        Record::C(data)
    }
}

impl From<DataD> for Record {
    fn from(data: DataD) -> (record: Record) {
        Record::D(data)
    }
}

impl FromSpecImpl<DataD> for Record {
    open spec fn obeys_from_spec() -> bool {
        true
    }

    open spec fn from_spec(data: DataD) -> Record {
        Record::D(data)
    }
}

impl From<DataE> for Record {
    fn from(data: DataE) -> (record: Record) {
        Record::E(data)
    }
}

impl FromSpecImpl<DataE> for Record {
    open spec fn obeys_from_spec() -> bool {
        true
    }

    open spec fn from_spec(data: DataE) -> Record {
        Record::E(data)
    }
}

} // verus!
