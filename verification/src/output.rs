//! The output stream: records appended in the order of emission, and read
//! back in that order.
//!
//! Both ends work on bytes held in memory. Whoever stores the stream takes
//! the flushed bytes from the [`Writer`] and hands stored bytes to the
//! [`Reader`].

use crate::data::Record;
use crate::data::RecordView;
use crate::wire::decode;
use crate::wire::decoded;
use crate::wire::encodable;
use crate::wire::encode;
use crate::wire::encoding;
use crate::wire::encoding_of_all;
use crate::wire::lemma_encoding_of_all_concat;
use crate::wire::lemma_encoding_of_all_push;
use vstd::prelude::*;
use vstd::slice::slice_subrange;

verus! {

/// Write records into the output stream.
pub struct Writer {
    pending: Vec<u8>,
    ready: Vec<u8>,
    log: Ghost<Seq<RecordView>>,
    flushed: Ghost<nat>,
    taken: Ghost<nat>,
}

impl Writer {
    /// Every record written so far, oldest first.
    pub closed spec fn records(&self) -> Seq<RecordView> {
        self.log@
    }

    /// How many of the written records have been flushed.
    pub closed spec fn flushed(&self) -> nat {
        self.flushed@
    }

    /// How many of the flushed records have been taken out.
    pub closed spec fn taken(&self) -> nat {
        self.taken@
    }

    /// The writer holds the bytes of the records that were written and not
    /// yet taken out.
    pub closed spec fn wf(&self) -> bool {
        &&& self.taken@ <= self.flushed@ <= self.log@.len()
        &&& self.ready@ == encoding_of_all(
            self.log@.subrange(self.taken@ as int, self.flushed@ as int),
        )
        &&& self.pending@ == encoding_of_all(
            self.log@.subrange(self.flushed@ as int, self.log@.len() as int),
        )
        &&& forall|i: int| 0 <= i < self.log@.len() ==> encodable(#[trigger] self.log@[i])
    }

    /// Every written record can be read back.
    pub proof fn lemma_records_encodable(&self)
        requires
            self.wf(),
        ensures
            forall|i: int| 0 <= i < self.records().len() ==> encodable(#[trigger] self.records()[i]),
    {
    }

    /// Open the writer on an empty stream.
    pub fn open() -> (writer: Writer)
        ensures
            writer.wf(),
            writer.records() == Seq::<RecordView>::empty(),
            writer.flushed() == 0,
            writer.taken() == 0,
    {
        let writer = Writer {
            pending: Vec::new(),
            ready: Vec::new(),
            log: Ghost(Seq::empty()),
            flushed: Ghost(0),
            taken: Ghost(0),
        };
        assert(writer.log@.subrange(0, 0) =~= Seq::empty());
        writer
    }

    /// Write a record into the stream, without caring about ordering.
    pub fn write(&mut self, record: &Record)
        requires
            old(self).wf(),
        ensures
            final(self).wf(),
            final(self).records() == old(self).records().push(record@),
            final(self).flushed() == old(self).flushed(),
            final(self).taken() == old(self).taken(),
    {
        let ghost log = self.log@;
        let ghost from = self.flushed@ as int;
        encode(record, &mut self.pending);
        self.log = Ghost(log.push(record@));
        proof {
            lemma_encoding_of_all_push(log.subrange(from, log.len() as int), record@);
            assert(log.push(record@).subrange(from, log.len() as int + 1) =~= log.subrange(
                from,
                log.len() as int,
            ).push(record@));
            assert(log.push(record@).subrange(self.taken@ as int, from) =~= log.subrange(
                self.taken@ as int,
                from,
            ));
        }
    }

    /// Flush buffered data: every record written so far becomes ready to be
    /// taken out.
    pub fn flush(&mut self)
        requires
            old(self).wf(),
        ensures
            final(self).wf(),
            final(self).records() == old(self).records(),
            final(self).flushed() == old(self).records().len(),
            final(self).taken() == old(self).taken(),
    {
        let ghost log = self.log@;
        let ghost mid = self.flushed@ as int;
        self.ready.append(&mut self.pending);
        self.flushed = Ghost(log.len());
        proof {
            let front = log.subrange(self.taken@ as int, mid);
            let back = log.subrange(mid, log.len() as int);
            lemma_encoding_of_all_concat(front, back);
            assert(front + back =~= log.subrange(self.taken@ as int, log.len() as int));
            assert(log.subrange(log.len() as int, log.len() as int) =~= Seq::empty());
        }
    }

    /// Takes out the bytes of the records that were flushed since the last
    /// call, in the order they were written.
    pub fn take_flushed(&mut self) -> (bytes: Vec<u8>)
        requires
            old(self).wf(),
        ensures
            final(self).wf(),
            final(self).records() == old(self).records(),
            final(self).flushed() == old(self).flushed(),
            final(self).taken() == old(self).flushed(),
            old(self).taken() <= old(self).flushed() <= old(self).records().len(),
            bytes@ == encoding_of_all(
                old(self).records().subrange(old(self).taken() as int, old(self).flushed() as int),
            ),
    {
        let mut bytes = Vec::new();
        bytes.append(&mut self.ready);
        self.taken = Ghost(self.flushed@);
        proof {
            let at = self.flushed@ as int;
            assert(self.log@.subrange(at, at) =~= Seq::empty());
            assert(bytes@ =~= old(self).ready@);
        }
        bytes
    }
}

/// Why [`Reader::read`] gave no record.
#[derive(Clone, Copy, Debug, PartialEq, Eq)]
pub enum ReadError {
    /// The unread bytes do not begin with a whole record.
    NoRecord,
}

/// Read records from the output stream.
#[derive(Debug)]
pub struct Reader {
    bytes: Vec<u8>,
    position: usize,
}

impl Reader {
    /// The bytes that were handed in and not read yet.
    pub closed spec fn unread(&self) -> Seq<u8> {
        self.bytes@.subrange(self.position as int, self.bytes@.len() as int)
    }

    /// The read position is inside the bytes held.
    pub closed spec fn wf(&self) -> bool {
        self.position <= self.bytes@.len()
    }

    /// Open the reader, with nothing to read yet.
    pub fn open() -> (reader: Reader)
        ensures
            reader.wf(),
            reader.unread() == Seq::<u8>::empty(),
    {
        let reader = Reader { bytes: Vec::new(), position: 0 };
        assert(reader.unread() =~= Seq::empty());
        reader
    }

    /// Hands the reader the bytes that follow those it already has.
    pub fn feed(&mut self, more: Vec<u8>)
        requires
            old(self).wf(),
        ensures
            final(self).wf(),
            final(self).unread() == old(self).unread() + more@,
    {
        let mut tail = more;
        let ghost fed = tail@;
        let mut rest = self.bytes.split_off(self.position);
        rest.append(&mut tail);
        self.bytes = rest;
        self.position = 0;
        assert(self.unread() =~= old(self).unread() + fed);
    }

    /// Read the next record. It is an error where the unread bytes do not
    /// begin with a whole record; nothing is consumed then.
    pub fn read(&mut self) -> (r: Result<Record, ReadError>)
        requires
            old(self).wf(),
        ensures
            final(self).wf(),
            match r {
                Ok(record) => {
                    &&& decoded(old(self).unread()) == Some(record@)
                    &&& encoding(record@).is_prefix_of(old(self).unread())
                    &&& final(self).unread() == old(self).unread().skip(
                        encoding(record@).len() as int,
                    )
                },
                Err(_) => {
                    &&& decoded(old(self).unread()) is None
                    &&& final(self).unread() == old(self).unread()
                },
            },
    {
        let unread = slice_subrange(self.bytes.as_slice(), self.position, self.bytes.len());
        match decode(unread) {
            Some((record, used)) => {
                self.position = self.position + used;
                assert(self.unread() =~= old(self).unread().skip(used as int));
                Ok(record)
            },
            None => Err(ReadError::NoRecord),
        }
    }
}

} // verus!
