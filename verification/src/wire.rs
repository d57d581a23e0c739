//! Byte form of records.
//!
//! A record is laid out as bincode lays out an enum of structs under its
//! default options: the variant's index as a little-endian `u32`, then the
//! fields in order, integers little-endian at their fixed width, a string or
//! a vector behind its length as a `u64`. The layout is self-delimiting: no
//! record's bytes are a proper prefix of another's.

use crate::data::DataA;
use crate::data::DataB;
use crate::data::DataC;
use crate::data::DataD;
use crate::data::DataE;
use crate::data::Record;
use crate::data::RecordView;
use crate::data::Timestamp;
use vstd::bytes::*;
use vstd::prelude::*;
use vstd::slice::slice_subrange;
use vstd::utf8::*;

verus! {

/// The byte of a `bool`.
pub open spec fn bool_byte(b: bool) -> u8 {
    if b {
        1
    } else {
        0
    }
}

/// The items of a `u16` sequence, two little-endian bytes each, in order.
pub open spec fn u16s_le(items: Seq<u16>) -> Seq<u8>
    decreases items.len(),
{
    if items.len() == 0 {
        Seq::empty()
    } else {
        u16s_le(items.drop_last()) + spec_u16_to_le_bytes(items.last())
    }
}

/// A string on the wire: the length of its UTF-8 form, then that form.
pub open spec fn string_bytes(chars: Seq<char>) -> Seq<u8> {
    spec_u64_to_le_bytes(encode_utf8(chars).len() as u64) + encode_utf8(chars)
}

/// A `u16` vector on the wire: the number of items, then the items.
pub open spec fn u16s_bytes(items: Seq<u16>) -> Seq<u8> {
    spec_u64_to_le_bytes(items.len() as u64) + u16s_le(items)
}

/// What every record starts with: source index and timestamp, 20 bytes.
pub open spec fn header(source: u32, timestamp: u128) -> Seq<u8> {
    spec_u32_to_le_bytes(source) + spec_u128_to_le_bytes(timestamp)
}

/// The fields that follow the header, by variant.
pub open spec fn payload(r: RecordView) -> Seq<u8> {
    match r {
        RecordView::A { foo, .. } => string_bytes(foo),
        RecordView::B { bar, .. } => seq![bool_byte(bar)],
        RecordView::C { baz, .. } => spec_u32_to_le_bytes(baz.0) + spec_u32_to_le_bytes(baz.1),
        RecordView::D { .. } => Seq::empty(),
        RecordView::E { def, .. } => u16s_bytes(def),
    }
}

/// The bytes of one record.
pub open spec fn encoding(r: RecordView) -> Seq<u8> {
    header(r.source() as u32, r.timestamp()) + payload(r)
}

/// Whether the lengths inside `r` fit the 64-bit length fields. Every record
/// held in memory is encodable.
pub open spec fn encodable(r: RecordView) -> bool {
    match r {
        RecordView::A { foo, .. } => encode_utf8(foo).len() <= u64::MAX,
        RecordView::E { def, .. } => def.len() <= u64::MAX,
        _ => true,
    }
}

/// The bytes of a run of records, one after the other.
pub open spec fn encoding_of_all(records: Seq<RecordView>) -> Seq<u8>
    decreases records.len(),
{
    if records.len() == 0 {
        Seq::empty()
    } else {
        encoding(records.first()) + encoding_of_all(records.drop_first())
    }
}

/// Whether `bytes` begin with the bytes of `r`.
pub open spec fn starts_with(bytes: Seq<u8>, r: RecordView) -> bool {
    encodable(r) && encoding(r).is_prefix_of(bytes)
}

/// The record that `bytes` begin with, if they begin with one. There is at
/// most one such record, see [`lemma_starts_with_one_record`].
pub open spec fn decoded(bytes: Seq<u8>) -> Option<RecordView> {
    if exists|r: RecordView| starts_with(bytes, r) {
        Some(choose|r: RecordView| starts_with(bytes, r))
    } else {
        None
    }
}

/// The length that a string or a vector on the wire starts with.
pub open spec fn length_field(bytes: Seq<u8>) -> int {
    spec_u64_from_le_bytes(bytes.subrange(0, 8)) as int
}

/// Whether `bytes` begin with a string on the wire: a length, then as many
/// bytes, which are valid UTF-8.
pub open spec fn holds_string(bytes: Seq<u8>) -> bool {
    &&& bytes.len() >= 8
    &&& 8 + length_field(bytes) <= bytes.len()
    &&& valid_utf8(bytes.subrange(8, 8 + length_field(bytes)))
}

/// The string that `bytes` begin with, where [`holds_string`].
pub open spec fn string_in(bytes: Seq<u8>) -> Seq<char> {
    decode_utf8(bytes.subrange(8, 8 + length_field(bytes)))
}

/// Whether `bytes` begin with a `u16` vector on the wire: a length, then
/// twice as many bytes.
pub open spec fn holds_u16s(bytes: Seq<u8>) -> bool {
    &&& bytes.len() >= 8
    &&& 8 + 2 * length_field(bytes) <= bytes.len()
}

/// The `u16` vector that `bytes` begin with, where [`holds_u16s`].
pub open spec fn u16s_in(bytes: Seq<u8>) -> Seq<u16> {
    Seq::new(
        length_field(bytes) as nat,
        |i: int| spec_u16_from_le_bytes(bytes.subrange(8 + 2 * i, 10 + 2 * i)),
    )
}

/// `bincode::serialize_into` on a `u32`: appends its four little-endian
/// bytes. Writing into a `Vec` cannot fail and the default options set no
/// size limit, so the call always succeeds.
#[verifier::external_body]
fn put_u32(out: &mut Vec<u8>, value: u32)
    ensures
        final(out)@ == old(out)@ + spec_u32_to_le_bytes(value),
{
    let _ = bincode::serialize_into(out, &value);
}

/// `bincode::serialize_into` on a `u128`: appends its sixteen little-endian
/// bytes, and always succeeds on a `Vec`.
#[verifier::external_body]
fn put_u128(out: &mut Vec<u8>, value: u128)
    ensures
        final(out)@ == old(out)@ + spec_u128_to_le_bytes(value),
{
    let _ = bincode::serialize_into(out, &value);
}

/// `bincode::serialize_into` on a `bool`: appends one byte, 1 for `true` and
/// 0 for `false`, and always succeeds on a `Vec`.
#[verifier::external_body]
fn put_bool(out: &mut Vec<u8>, value: bool)
    ensures
        final(out)@ == old(out)@.push(bool_byte(value)),
{
    let _ = bincode::serialize_into(out, &value);
}

/// `bincode::serialize_into` on a `str`: appends the length in bytes of its
/// UTF-8 form as a little-endian `u64`, then that form, and always succeeds
/// on a `Vec`.
#[verifier::external_body]
fn put_str(out: &mut Vec<u8>, value: &str)
    ensures
        final(out)@ == old(out)@ + string_bytes(value@),
{
    let _ = bincode::serialize_into(out, value);
}

/// `bincode::serialize_into` on a `Vec<u16>`: appends the number of items as
/// a little-endian `u64`, then each item as two little-endian bytes, and
/// always succeeds on a `Vec`.
#[verifier::external_body]
fn put_u16s(out: &mut Vec<u8>, value: &Vec<u16>)
    ensures
        final(out)@ == old(out)@ + u16s_bytes(value@),
{
    let _ = bincode::serialize_into(out, value);
}

/// Appends the bytes of `record` to `out`.
pub fn encode(record: &Record, out: &mut Vec<u8>)
    ensures
        final(out)@ == old(out)@ + encoding(record@),
        encodable(record@),
{
    let ghost before = out@;
    match record {
        Record::A(x) => {
            put_u32(out, 0);
            put_u128(out, x.timestamp.0);
            put_str(out, x.foo.as_str());
            // a slice is never longer than `usize::MAX`
            let utf8 = x.foo.as_str().as_bytes();
            assert(utf8@.len() <= usize::MAX) by {
                vstd::slice::axiom_spec_len(utf8);
            }
        },
        Record::B(x) => {
            put_u32(out, 1);
            put_u128(out, x.timestamp.0);
            put_bool(out, x.bar);
            assert(seq![bool_byte(x.bar)] =~= Seq::empty().push(bool_byte(x.bar)));
        },
        Record::C(x) => {
            put_u32(out, 2);
            put_u128(out, x.timestamp.0);
            put_u32(out, x.baz.0);
            put_u32(out, x.baz.1);
        },
        Record::D(x) => {
            put_u32(out, 3);
            put_u128(out, x.timestamp.0);
        },
        Record::E(x) => {
            put_u32(out, 4);
            put_u128(out, x.timestamp.0);
            put_u16s(out, &x.def);
            assert(x.def@.len() <= usize::MAX) by {
                vstd::std_specs::vec::axiom_spec_len(&x.def);
            }
        },
    }
    assert(out@ =~= before + encoding(record@));
}

/// `bincode::deserialize` to a `u32`: the first four bytes read as a
/// little-endian number; an error where fewer are there. Bytes behind the
/// value are left alone.
#[verifier::external_body]
fn take_u32(bytes: &[u8]) -> (r: Option<u32>)
    ensures
        bytes@.len() >= 4 ==> r == Some(spec_u32_from_le_bytes(bytes@.subrange(0, 4))),
        bytes@.len() < 4 ==> r is None,
{
    bincode::deserialize::<u32>(bytes).ok()
}

/// `bincode::deserialize` to a `u128`: the first sixteen bytes read as a
/// little-endian number; an error where fewer are there.
#[verifier::external_body]
fn take_u128(bytes: &[u8]) -> (r: Option<u128>)
    ensures
        bytes@.len() >= 16 ==> r == Some(spec_u128_from_le_bytes(bytes@.subrange(0, 16))),
        bytes@.len() < 16 ==> r is None,
{
    bincode::deserialize::<u128>(bytes).ok()
}

/// `bincode::deserialize` to a `bool`: the first byte, which must be 0 or 1;
/// an error on any other byte and on no byte.
#[verifier::external_body]
fn take_bool(bytes: &[u8]) -> (r: Option<bool>)
    ensures
        bytes@.len() >= 1 && bytes@[0] <= 1 ==> r == Some(bytes@[0] == 1),
        bytes@.len() < 1 || bytes@[0] > 1 ==> r is None,
{
    bincode::deserialize::<bool>(bytes).ok()
}

/// `bincode::deserialize` to a `String`: reads the length, checks that as
/// many bytes follow and that they are valid UTF-8, and returns them as a
/// string; an error otherwise.
#[verifier::external_body]
fn take_string(bytes: &[u8]) -> (r: Option<String>)
    ensures
        holds_string(bytes@) ==> r is Some && r.unwrap()@ == string_in(bytes@),
        !holds_string(bytes@) ==> r is None,
{
    bincode::deserialize::<String>(bytes).ok()
}

/// `bincode::deserialize` to a `Vec<u16>`: reads the length, then as many
/// little-endian items of two bytes; an error where the bytes run out.
#[verifier::external_body]
fn take_u16s(bytes: &[u8]) -> (r: Option<Vec<u16>>)
    ensures
        holds_u16s(bytes@) ==> r is Some && r.unwrap()@ == u16s_in(bytes@),
        !holds_u16s(bytes@) ==> r is None,
{
    bincode::deserialize::<Vec<u16>>(bytes).ok()
}

/// The record that `bytes` begin with, read field by field.
pub open spec fn parsed(bytes: Seq<u8>) -> Option<RecordView> {
    if bytes.len() < 20 {
        None
    } else {
        let source = spec_u32_from_le_bytes(bytes.subrange(0, 4));
        let timestamp = spec_u128_from_le_bytes(bytes.subrange(4, 20));
        let rest = bytes.subrange(20, bytes.len() as int);
        if source == 0 {
            if holds_string(rest) {
                Some(RecordView::A { timestamp, foo: string_in(rest) })
            } else {
                None
            }
        } else if source == 1 {
            if rest.len() >= 1 && rest[0] <= 1 {
                Some(RecordView::B { timestamp, bar: rest[0] == 1 })
            } else {
                None
            }
        } else if source == 2 {
            if rest.len() >= 8 {
                Some(
                    RecordView::C {
                        timestamp,
                        baz: (
                            spec_u32_from_le_bytes(rest.subrange(0, 4)),
                            spec_u32_from_le_bytes(rest.subrange(4, 8)),
                        ),
                    },
                )
            } else {
                None
            }
        } else if source == 3 {
            Some(RecordView::D { timestamp })
        } else if source == 4 {
            if holds_u16s(rest) {
                Some(RecordView::E { timestamp, def: u16s_in(rest) })
            } else {
                None
            }
        } else {
            None
        }
    }
}

/// A `u16` sequence takes two bytes per item.
pub proof fn lemma_u16s_le_len(items: Seq<u16>)
    ensures
        u16s_le(items).len() == 2 * items.len(),
    decreases items.len(),
{
    lemma_auto_spec_u16_to_from_le_bytes();
    if items.len() > 0 {
        lemma_u16s_le_len(items.drop_last());
    }
}

/// Item `i` of a `u16` sequence stands at bytes `2 * i` and `2 * i + 1`.
pub proof fn lemma_u16s_le_item(items: Seq<u16>, i: int)
    requires
        0 <= i < items.len(),
    ensures
        u16s_le(items).len() == 2 * items.len(),
        u16s_le(items).subrange(2 * i, 2 * i + 2) == spec_u16_to_le_bytes(items[i]),
    decreases items.len(),
{
    lemma_auto_spec_u16_to_from_le_bytes();
    lemma_u16s_le_len(items);
    lemma_u16s_le_len(items.drop_last());
    let front = u16s_le(items.drop_last());
    let back = spec_u16_to_le_bytes(items.last());
    if i == items.len() - 1 {
        assert((front + back).subrange(2 * i, 2 * i + 2) =~= back);
    } else {
        lemma_u16s_le_item(items.drop_last(), i);
        assert((front + back).subrange(2 * i, 2 * i + 2) =~= front.subrange(2 * i, 2 * i + 2));
    }
}

/// Bytes that hold the items of `items` pairwise are the bytes of `items`.
pub proof fn lemma_u16s_le_from_items(items: Seq<u16>, bytes: Seq<u8>)
    requires
        bytes.len() == 2 * items.len(),
        forall|i: int|
            0 <= i < items.len() ==> items[i] == spec_u16_from_le_bytes(
                #[trigger] bytes.subrange(2 * i, 2 * i + 2),
            ),
    ensures
        u16s_le(items) == bytes,
    decreases items.len(),
{
    lemma_auto_spec_u16_to_from_le_bytes();
    if items.len() == 0 {
        assert(bytes =~= Seq::empty());
    } else {
        let n = items.len() - 1;
        let front = bytes.subrange(0, 2 * n);
        assert forall|i: int| 0 <= i < n implies items.drop_last()[i] == spec_u16_from_le_bytes(
            #[trigger] front.subrange(2 * i, 2 * i + 2),
        ) by {
            assert(front.subrange(2 * i, 2 * i + 2) =~= bytes.subrange(2 * i, 2 * i + 2));
        }
        lemma_u16s_le_from_items(items.drop_last(), front);
        let back = bytes.subrange(2 * n, 2 * n + 2);
        assert(back.len() == 2);
        assert(spec_u16_to_le_bytes(items.last()) == back);
        assert(bytes =~= front + back);
    }
}

/// Where `front + piece` leads `bytes`, `front` leads them and `piece`
/// stands right behind it.
proof fn lemma_piece(bytes: Seq<u8>, front: Seq<u8>, piece: Seq<u8>)
    requires
        (front + piece).is_prefix_of(bytes),
    ensures
        front.len() + piece.len() <= bytes.len(),
        front.is_prefix_of(bytes),
        bytes.subrange(0, front.len() as int) == front,
        bytes.subrange(front.len() as int, (front.len() + piece.len()) as int) == piece,
        piece.is_prefix_of(bytes.subrange(front.len() as int, bytes.len() as int)),
{
    let whole = front + piece;
    let lead = bytes.subrange(0, whole.len() as int);
    assert(whole =~= lead);
    assert forall|i: int| 0 <= i < front.len() implies bytes[i] == front[i] by {
        assert(lead[i] == whole[i]);
    }
    assert forall|i: int| 0 <= i < piece.len() implies bytes[front.len() + i] == piece[i] by {
        assert(lead[front.len() + i] == whole[front.len() + i]);
    }
    assert(bytes.subrange(0, front.len() as int) =~= front);
    assert(bytes.subrange(front.len() as int, (front.len() + piece.len()) as int) =~= piece);
    let rest = bytes.subrange(front.len() as int, bytes.len() as int);
    assert(rest.subrange(0, piece.len() as int) =~= piece);
}

/// Where the bytes of `r` lead `bytes`, each part stands at its place.
pub proof fn lemma_layout(r: RecordView, bytes: Seq<u8>)
    requires
        encoding(r).is_prefix_of(bytes),
    ensures
        encoding(r).len() == 20 + payload(r).len(),
        bytes.len() >= 20 + payload(r).len(),
        bytes.subrange(0, 4) == spec_u32_to_le_bytes(r.source() as u32),
        bytes.subrange(4, 20) == spec_u128_to_le_bytes(r.timestamp()),
        payload(r).is_prefix_of(bytes.subrange(20, bytes.len() as int)),
{
    lemma_auto_spec_u32_to_from_le_bytes();
    lemma_auto_spec_u128_to_from_le_bytes();
    let tag = spec_u32_to_le_bytes(r.source() as u32);
    let ts = spec_u128_to_le_bytes(r.timestamp());
    assert(tag.len() == 4);
    assert(ts.len() == 16);
    lemma_piece(bytes, tag + ts, payload(r));
    lemma_piece(bytes, tag, ts);
}

/// Bytes that begin with the bytes of a record parse to that record.
pub proof fn lemma_parsed_of_encoding(r: RecordView, bytes: Seq<u8>)
    requires
        starts_with(bytes, r),
    ensures
        parsed(bytes) == Some(r),
{
    lemma_auto_spec_u16_to_from_le_bytes();
    lemma_auto_spec_u32_to_from_le_bytes();
    lemma_auto_spec_u64_to_from_le_bytes();
    lemma_auto_spec_u128_to_from_le_bytes();
    lemma_layout(r, bytes);
    let rest = bytes.subrange(20, bytes.len() as int);
    match r {
        RecordView::A { timestamp, foo } => {
            let utf8 = encode_utf8(foo);
            let len = spec_u64_to_le_bytes(utf8.len() as u64);
            assert(len.len() == 8);
            lemma_piece(rest, len, utf8);
            assert(length_field(rest) == utf8.len());
            encode_utf8_valid_utf8(foo);
            encode_utf8_decode_utf8(foo);
        },
        RecordView::B { timestamp, bar } => {
            let p = payload(r);
            assert(p =~= rest.subrange(0, p.len() as int));
            assert(rest[0] == p[0]);
        },
        RecordView::C { timestamp, baz } => {
            let first = spec_u32_to_le_bytes(baz.0);
            let second = spec_u32_to_le_bytes(baz.1);
            assert(first.len() == 4);
            assert(second.len() == 4);
            lemma_piece(rest, first, second);
        },
        RecordView::D { timestamp } => {},
        RecordView::E { timestamp, def } => {
            let len = spec_u64_to_le_bytes(def.len() as u64);
            assert(len.len() == 8);
            lemma_u16s_le_len(def);
            lemma_piece(rest, len, u16s_le(def));
            assert(length_field(rest) == def.len());
            let items = rest.subrange(8, 8 + 2 * (def.len() as int));
            assert forall|i: int| 0 <= i < def.len() implies u16s_in(rest)[i] == def[i] by {
                lemma_u16s_le_item(def, i);
                assert(rest.subrange(8 + 2 * i, 10 + 2 * i) =~= items.subrange(2 * i, 2 * i + 2));
            }
            assert(u16s_in(rest) =~= def);
        },
    }
}

/// Bytes that parse to a record begin with the bytes of that record.
pub proof fn lemma_encoding_of_parsed(bytes: Seq<u8>)
    requires
        parsed(bytes) is Some,
        bytes.len() <= u64::MAX,
    ensures
        starts_with(bytes, parsed(bytes).unwrap()),
{
    lemma_auto_spec_u16_to_from_le_bytes();
    lemma_auto_spec_u32_to_from_le_bytes();
    lemma_auto_spec_u64_to_from_le_bytes();
    lemma_auto_spec_u128_to_from_le_bytes();
    let r = parsed(bytes).unwrap();
    let rest = bytes.subrange(20, bytes.len() as int);
    let tag = bytes.subrange(0, 4);
    let ts = bytes.subrange(4, 20);
    assert(spec_u32_to_le_bytes(r.source() as u32) == tag);
    assert(spec_u128_to_le_bytes(r.timestamp()) == ts);
    match r {
        RecordView::A { timestamp, foo } => {
            let n = length_field(rest);
            let utf8 = rest.subrange(8, 8 + n);
            decode_utf8_encode_utf8(utf8);
            assert(encode_utf8(foo) == utf8);
            assert(spec_u64_to_le_bytes(n as u64) == rest.subrange(0, 8));
            assert(payload(r) =~= rest.subrange(0, 8 + n));
            assert(encoding(r) =~= bytes.subrange(0, 28 + n));
        },
        RecordView::B { timestamp, bar } => {
            assert(payload(r) =~= rest.subrange(0, 1));
            assert(encoding(r) =~= bytes.subrange(0, 21));
        },
        RecordView::C { timestamp, baz } => {
            assert(spec_u32_to_le_bytes(baz.0) == rest.subrange(0, 4));
            assert(spec_u32_to_le_bytes(baz.1) == rest.subrange(4, 8));
            assert(payload(r) =~= rest.subrange(0, 8));
            assert(encoding(r) =~= bytes.subrange(0, 28));
        },
        RecordView::D { timestamp } => {
            assert(encoding(r) =~= bytes.subrange(0, 20));
        },
        RecordView::E { timestamp, def } => {
            let n = length_field(rest);
            let items = rest.subrange(8, 8 + 2 * n);
            assert forall|i: int| 0 <= i < def.len() implies def[i] == spec_u16_from_le_bytes(
                #[trigger] items.subrange(2 * i, 2 * i + 2),
            ) by {
                assert(items.subrange(2 * i, 2 * i + 2) =~= rest.subrange(8 + 2 * i, 10 + 2 * i));
            }
            lemma_u16s_le_from_items(def, items);
            assert(spec_u64_to_le_bytes(n as u64) == rest.subrange(0, 8));
            assert(payload(r) =~= rest.subrange(0, 8 + 2 * n));
            assert(encoding(r) =~= bytes.subrange(0, 28 + 2 * n));
        },
    }
}

/// Bytes begin with at most one record: the layout is self-delimiting.
pub proof fn lemma_starts_with_one_record(bytes: Seq<u8>, a: RecordView, b: RecordView)
    requires
        starts_with(bytes, a),
        starts_with(bytes, b),
    ensures
        a == b,
{
    lemma_parsed_of_encoding(a, bytes);
    lemma_parsed_of_encoding(b, bytes);
}

/// Reading the bytes field by field finds the record they begin with, and
/// finds none where they begin with none.
pub proof fn lemma_decoded_is_parsed(bytes: Seq<u8>)
    requires
        bytes.len() <= u64::MAX,
    ensures
        decoded(bytes) == parsed(bytes),
{
    if exists|r: RecordView| starts_with(bytes, r) {
        let r = choose|r: RecordView| starts_with(bytes, r);
        lemma_parsed_of_encoding(r, bytes);
    } else {
        if parsed(bytes) is Some {
            lemma_encoding_of_parsed(bytes);
        }
    }
}

/// Writing a record and reading it back gives the record: the bytes of `r`,
/// whatever follows them, decode to `r`.
pub proof fn lemma_decoded_of_encoding(r: RecordView, rest: Seq<u8>)
    requires
        encodable(r),
    ensures
        decoded(encoding(r) + rest) == Some(r),
{
    let bytes = encoding(r) + rest;
    assert(encoding(r) =~= bytes.subrange(0, encoding(r).len() as int));
    assert(starts_with(bytes, r));
    let found = choose|x: RecordView| starts_with(bytes, x);
    lemma_starts_with_one_record(bytes, found, r);
}

/// How many bytes a record takes.
pub open spec fn encoded_len(r: RecordView) -> nat {
    match r {
        RecordView::A { foo, .. } => 28 + encode_utf8(foo).len(),
        RecordView::B { .. } => 21,
        RecordView::C { .. } => 28,
        RecordView::D { .. } => 20,
        RecordView::E { def, .. } => 28 + 2 * def.len(),
    }
}

/// The bytes of a record are as many as [`encoded_len`] says: never fewer
/// than 20.
pub proof fn lemma_encoding_len(r: RecordView)
    ensures
        encoding(r).len() == encoded_len(r),
        encoding(r).len() >= 20,
{
    lemma_auto_spec_u32_to_from_le_bytes();
    lemma_auto_spec_u64_to_from_le_bytes();
    lemma_auto_spec_u128_to_from_le_bytes();
    assert(spec_u32_to_le_bytes(r.source() as u32).len() == 4);
    assert(spec_u128_to_le_bytes(r.timestamp()).len() == 16);
    match r {
        RecordView::A { timestamp, foo } => {
            assert(spec_u64_to_le_bytes(encode_utf8(foo).len() as u64).len() == 8);
        },
        RecordView::B { timestamp, bar } => {},
        RecordView::C { timestamp, baz } => {
            assert(spec_u32_to_le_bytes(baz.0).len() == 4);
            assert(spec_u32_to_le_bytes(baz.1).len() == 4);
        },
        RecordView::D { timestamp } => {},
        RecordView::E { timestamp, def } => {
            assert(spec_u64_to_le_bytes(def.len() as u64).len() == 8);
            lemma_u16s_le_len(def);
        },
    }
}

/// Reads the record that `bytes` begin with, and says how many bytes it
/// takes. `None` where `bytes` begin with no record: they are cut short, or
/// they are no record's bytes at all.
pub fn decode(bytes: &[u8]) -> (r: Option<(Record, usize)>)
    ensures
        match r {
            Some((record, used)) => {
                &&& decoded(bytes@) == Some(record@)
                &&& used == encoding(record@).len()
                &&& used <= bytes@.len()
            },
            None => decoded(bytes@) is None,
        },
{
    let len = bytes.len();
    proof {
        vstd::slice::axiom_spec_len(bytes);
        lemma_decoded_is_parsed(bytes@);
        if parsed(bytes@) is Some {
            lemma_encoding_of_parsed(bytes@);
            lemma_encoding_len(parsed(bytes@).unwrap());
        }
    }
    if len < 20 {
        return None;
    }
    let source = match take_u32(bytes) {
        Some(x) => x,
        None => {
            return None;
        },
    };
    let after_source = slice_subrange(bytes, 4, len);
    assert(after_source@.subrange(0, 16) =~= bytes@.subrange(4, 20));
    let timestamp = match take_u128(after_source) {
        Some(x) => Timestamp(x),
        None => {
            return None;
        },
    };
    let rest = slice_subrange(bytes, 20, len);
    if source == 0 {
        match take_string(rest) {
            Some(foo) => {
                proof {
                    decode_utf8_encode_utf8(rest@.subrange(8, 8 + length_field(rest@)));
                }
                let used = 28 + foo.as_str().len();
                Some((Record::A(DataA { timestamp, foo }), used))
            },
            None => None,
        }
    } else if source == 1 {
        match take_bool(rest) {
            Some(bar) => Some((Record::B(DataB { timestamp, bar }), 21)),
            None => None,
        }
    } else if source == 2 {
        if len < 28 {
            return None;
        }
        let first = take_u32(rest);
        let after_first = slice_subrange(bytes, 24, len);
        assert(after_first@.subrange(0, 4) =~= rest@.subrange(4, 8));
        let second = take_u32(after_first);
        match (first, second) {
            (Some(x), Some(y)) => Some((Record::C(DataC { timestamp, baz: (x, y) }), 28)),
            _ => None,
        }
    } else if source == 3 {
        Some((Record::D(DataD { timestamp, abc: () }), 20))
    } else if source == 4 {
        match take_u16s(rest) {
            Some(def) => {
                let used = 28 + 2 * def.len();
                Some((Record::E(DataE { timestamp, def }), used))
            },
            None => None,
        }
    } else {
        None
    }
}

/// The bytes of a run that ends with `r` end with the bytes of `r`.
pub proof fn lemma_encoding_of_all_push(records: Seq<RecordView>, r: RecordView)
    ensures
        encoding_of_all(records.push(r)) == encoding_of_all(records) + encoding(r),
    decreases records.len(),
{
    if records.len() == 0 {
        assert(records.push(r).drop_first() =~= Seq::<RecordView>::empty());
        assert(encoding_of_all(Seq::<RecordView>::empty()) =~= Seq::<u8>::empty());
        assert(encoding_of_all(records.push(r)) =~= encoding_of_all(records) + encoding(r));
    } else {
        assert(records.push(r).drop_first() =~= records.drop_first().push(r));
        lemma_encoding_of_all_push(records.drop_first(), r);
        assert(encoding_of_all(records.push(r)) =~= encoding_of_all(records) + encoding(r));
    }
}

/// The bytes of two runs, one after the other, are the bytes of the joined
/// run.
pub proof fn lemma_encoding_of_all_concat(front: Seq<RecordView>, back: Seq<RecordView>)
    ensures
        encoding_of_all(front + back) == encoding_of_all(front) + encoding_of_all(back),
    decreases back.len(),
{
    if back.len() == 0 {
        assert(front + back =~= front);
        assert(encoding_of_all(front) + encoding_of_all(back) =~= encoding_of_all(front));
    } else {
        let init = back.drop_last();
        lemma_encoding_of_all_concat(front, init);
        lemma_encoding_of_all_push(front + init, back.last());
        lemma_encoding_of_all_push(init, back.last());
        assert(init.push(back.last()) =~= back);
        assert((front + init).push(back.last()) =~= front + back);
        assert(encoding_of_all(front + back) =~= encoding_of_all(front) + encoding_of_all(
            back,
        ));
    }
}

/// Reading back a run that was written: the bytes of a run that is not
/// empty, whatever follows them, begin with its first record, and behind it
/// stand the bytes of the others.
pub proof fn lemma_read_back(records: Seq<RecordView>, rest: Seq<u8>)
    requires
        records.len() > 0,
        encodable(records.first()),
    ensures
        decoded(encoding_of_all(records) + rest) == Some(records.first()),
        (encoding_of_all(records) + rest).skip(encoding(records.first()).len() as int)
            == encoding_of_all(records.drop_first()) + rest,
{
    let head = encoding(records.first());
    let tail = encoding_of_all(records.drop_first());
    assert(encoding_of_all(records) + rest =~= head + (tail + rest));
    lemma_decoded_of_encoding(records.first(), tail + rest);
    assert((head + (tail + rest)).skip(head.len() as int) =~= tail + rest);
}

} // verus!
