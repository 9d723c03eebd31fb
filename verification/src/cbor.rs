//! CBOR data items as the `serde_cbor` crate writes and reads them, and the
//! calls into that crate.

use vstd::prelude::*;
use vstd::utf8::encode_utf8;
use serde::ser::{SerializeMap, SerializeSeq};
use serde::{Deserialize, Serialize, Serializer};
use serde_cbor::Value;
use crate::order::{assoc_from_seq, bytes_lt};

verus! {

/// A CBOR data item, as `serde_cbor::Value` holds it.
pub enum CborV {
    Null,
    Bool(bool),
    Integer(int),
    /// The bit pattern of an IEEE 754 binary64 number.
    Float(u64),
    Bytes(Seq<u8>),
    Text(Seq<char>),
    Array(Seq<CborV>),
    /// Key/value pairs, in order.
    Dict(Seq<(CborV, CborV)>),
    Tag(u64, Box<CborV>),
}

/// A decoded CBOR data item: the library's copy of a `serde_cbor::Value`.
#[derive(Debug)]
pub enum CborValue {
    Null,
    Bool(bool),
    Integer(i128),
    /// The bit pattern of an IEEE 754 binary64 number.
    Float(u64),
    Bytes(Vec<u8>),
    Text(String),
    Array(Vec<CborValue>),
    /// Key/value pairs in the order in which `serde_cbor` keeps a map's
    /// entries.
    Dict(Vec<(CborValue, CborValue)>),
    Tag(u64, Box<CborValue>),
}

pub open spec fn cbor_view(v: CborValue) -> CborV
    decreases v,
{
    match v {
        CborValue::Null => CborV::Null,
        CborValue::Bool(b) => CborV::Bool(b),
        CborValue::Integer(i) => CborV::Integer(i as int),
        CborValue::Float(f) => CborV::Float(f),
        CborValue::Bytes(b) => CborV::Bytes(b@),
        CborValue::Text(s) => CborV::Text(s@),
        CborValue::Array(a) => CborV::Array(cbor_seq_view(a@)),
        CborValue::Dict(d) => CborV::Dict(cbor_pairs_view(d@)),
        CborValue::Tag(t, b) => CborV::Tag(t, Box::new(cbor_view(*b))),
    }
}

pub open spec fn cbor_seq_view(s: Seq<CborValue>) -> Seq<CborV>
    decreases s,
{
    if s.len() == 0 {
        seq![]
    } else {
        cbor_seq_view(s.drop_last()).push(cbor_view(s.last()))
    }
}

pub open spec fn cbor_pairs_view(s: Seq<(CborValue, CborValue)>) -> Seq<(CborV, CborV)>
    decreases s,
{
    if s.len() == 0 {
        seq![]
    } else {
        cbor_pairs_view(s.drop_last()).push((cbor_view(s.last().0), cbor_view(s.last().1)))
    }
}

impl View for CborValue {
    type V = CborV;

    open spec fn view(&self) -> CborV {
        cbor_view(*self)
    }
}

pub proof fn lemma_cbor_seq_view(s: Seq<CborValue>)
    ensures
        cbor_seq_view(s).len() == s.len(),
        forall|i: int| 0 <= i < s.len() ==> #[trigger] cbor_seq_view(s)[i] == cbor_view(s[i]),
    decreases s.len(),
{
    if s.len() > 0 {
        lemma_cbor_seq_view(s.drop_last());
    }
}

pub proof fn lemma_cbor_pairs_view(s: Seq<(CborValue, CborValue)>)
    ensures
        cbor_pairs_view(s).len() == s.len(),
        forall|i: int|
            0 <= i < s.len() ==> #[trigger] cbor_pairs_view(s)[i] == (
                cbor_view(s[i].0),
                cbor_view(s[i].1),
            ),
    decreases s.len(),
{
    if s.len() > 0 {
        lemma_cbor_pairs_view(s.drop_last());
    }
}

/// The `width` low-order bytes of `n`, most significant first.
pub open spec fn be_bytes(n: nat, width: nat) -> Seq<u8>
    decreases width,
{
    if width == 0 {
        seq![]
    } else {
        be_bytes(n / 256, (width - 1) as nat).push((n % 256) as u8)
    }
}

/// The head of a CBOR data item: its major type and its argument `n`, in the
/// shortest form.
pub open spec fn cbor_head(major: u8, n: nat) -> Seq<u8> {
    let m = major * 32;
    if n <= 23 {
        seq![(m + n) as u8]
    } else if n <= 0xff {
        seq![(m + 24) as u8] + be_bytes(n, 1)
    } else if n <= 0xffff {
        seq![(m + 25) as u8] + be_bytes(n, 2)
    } else if n <= 0xffff_ffff {
        seq![(m + 26) as u8] + be_bytes(n, 4)
    } else {
        seq![(m + 27) as u8] + be_bytes(n, 8)
    }
}

/// The integers that CBOR can hold: from -2^64 up to 2^64 - 1.
pub open spec fn cbor_int_fits(i: int) -> bool {
    -0x1_0000_0000_0000_0000 <= i <= 0xffff_ffff_ffff_ffff
}

/// The encoding of an integer.
pub open spec fn cbor_int_bytes(i: int) -> Seq<u8> {
    if i >= 0 {
        cbor_head(0, i as nat)
    } else {
        cbor_head(1, (-1 - i) as nat)
    }
}

/// What `serde_cbor` writes for the binary64 number with bit pattern `bits`
/// (the shortest of the half, single and double precision forms that holds it
/// exactly).
pub uninterp spec fn cbor_float_bytes(bits: u64) -> Seq<u8>;

/// What `serde_cbor` writes for a data item, maps and arrays with their
/// lengths given.
pub open spec fn cbor_bytes(v: CborV) -> Seq<u8>
    decreases v,
{
    match v {
        CborV::Null => seq![0xf6u8],
        CborV::Bool(b) => if b {
            seq![0xf5u8]
        } else {
            seq![0xf4u8]
        },
        CborV::Integer(i) => cbor_int_bytes(i),
        CborV::Float(f) => cbor_float_bytes(f),
        CborV::Bytes(b) => cbor_head(2, b.len()) + b,
        CborV::Text(s) => cbor_head(3, encode_utf8(s).len()) + encode_utf8(s),
        CborV::Array(a) => cbor_head(4, a.len()) + cbor_seq_bytes(a),
        CborV::Dict(d) => cbor_head(5, d.len()) + cbor_pairs_bytes(d),
        CborV::Tag(t, b) => cbor_head(6, t as nat) + cbor_bytes(*b),
    }
}

/// The encodings of the items, one after another.
pub open spec fn cbor_seq_bytes(s: Seq<CborV>) -> Seq<u8>
    decreases s,
{
    if s.len() == 0 {
        seq![]
    } else {
        cbor_seq_bytes(s.drop_last()) + cbor_bytes(s.last())
    }
}

/// The encodings of the keys and values, one after another.
pub open spec fn cbor_pairs_bytes(s: Seq<(CborV, CborV)>) -> Seq<u8>
    decreases s,
{
    if s.len() == 0 {
        seq![]
    } else {
        cbor_pairs_bytes(s.drop_last()) + cbor_bytes(s.last().0) + cbor_bytes(s.last().1)
    }
}

/// Every integer in the item fits CBOR.
pub open spec fn cbor_ints_fit(v: CborV) -> bool
    decreases v,
{
    match v {
        CborV::Integer(i) => cbor_int_fits(i),
        CborV::Array(a) => cbor_seq_ints_fit(a),
        CborV::Dict(d) => cbor_pairs_ints_fit(d),
        CborV::Tag(_, b) => cbor_ints_fit(*b),
        _ => true,
    }
}

pub open spec fn cbor_seq_ints_fit(s: Seq<CborV>) -> bool
    decreases s,
{
    if s.len() == 0 {
        true
    } else {
        cbor_seq_ints_fit(s.drop_last()) && cbor_ints_fit(s.last())
    }
}

pub open spec fn cbor_pairs_ints_fit(s: Seq<(CborV, CborV)>) -> bool
    decreases s,
{
    if s.len() == 0 {
        true
    } else {
        cbor_pairs_ints_fit(s.drop_last()) && cbor_ints_fit(s.last().0) && cbor_ints_fit(s.last().1)
    }
}

// ---------------------------------------------------------------------------
// Calls into serde_cbor that write.

/// The error type of `serde_cbor`.
#[verifier::external_type_specification]
#[verifier::external_body]
pub struct ExCborError(serde_cbor::Error);

/// `serde_cbor::Serializer::serialize_none` over a `Vec<u8>`: appends the
/// byte 0xf6. serde_cbor's writer for `Vec<u8>` never fails, so the result is
/// always `Ok` and is dropped.
#[verifier::external_body]
pub(crate) fn cbor_write_null(out: &mut Vec<u8>)
    ensures
        final(out)@ == old(out)@ + seq![0xf6u8],
{
    let _ = serde_cbor::Serializer::new(out).serialize_none();
}

/// `serde_cbor::Serializer::serialize_bool` over a `Vec<u8>`: appends 0xf5
/// for true and 0xf4 for false.
#[verifier::external_body]
pub(crate) fn cbor_write_bool(out: &mut Vec<u8>, b: bool)
    ensures
        final(out)@ == old(out)@ + cbor_bytes(CborV::Bool(b)),
{
    let _ = serde_cbor::Serializer::new(out).serialize_bool(b);
}

/// `serde_cbor::Serializer::serialize_i128` over a `Vec<u8>`: a number from
/// -2^64 to 2^64 - 1 is appended as a major type 0 or 1 item in its shortest
/// form; any other number is refused with an error before anything is written.
#[verifier::external_body]
pub(crate) fn cbor_write_integer(out: &mut Vec<u8>, i: i128) -> (r: Result<(), serde_cbor::Error>)
    ensures
        r is Ok <==> cbor_int_fits(i as int),
        r is Ok ==> final(out)@ == old(out)@ + cbor_int_bytes(i as int),
        r is Err ==> final(out)@ == old(out)@,
{
    serde_cbor::Serializer::new(out).serialize_i128(i)
}

/// `serde_cbor::Serializer::serialize_f64`, through `serde_cbor::Value`, over
/// a `Vec<u8>`: appends what serde_cbor writes for the binary64 number with
/// the given bit pattern. The number is first read back by
/// `serde_cbor::from_slice` from its own 9-byte double precision encoding,
/// which always succeeds.
#[verifier::external_body]
pub(crate) fn cbor_write_float(out: &mut Vec<u8>, bits: u64)
    ensures
        final(out)@ == old(out)@ + cbor_float_bytes(bits),
{
    let b = bits.to_be_bytes();
    let item = [0xfb, b[0], b[1], b[2], b[3], b[4], b[5], b[6], b[7]];
    if let Ok(number) = serde_cbor::from_slice::<serde_cbor::Value>(&item) {
        let _ = number.serialize(&mut serde_cbor::Serializer::new(out));
    }
}

/// `serde_cbor::Serializer::serialize_str` over a `Vec<u8>`: appends the head
/// of a text string of the string's UTF-8 length, then its UTF-8 bytes.
#[verifier::external_body]
pub(crate) fn cbor_write_text(out: &mut Vec<u8>, s: &str)
    ensures
        final(out)@ == old(out)@ + cbor_bytes(CborV::Text(s@)),
{
    let _ = serde_cbor::Serializer::new(out).serialize_str(s);
}

/// `serde_cbor::Serializer::serialize_bytes` over a `Vec<u8>`: appends the
/// head of a byte string of the slice's length, then the bytes.
#[verifier::external_body]
pub(crate) fn cbor_write_bytes(out: &mut Vec<u8>, b: &[u8])
    ensures
        final(out)@ == old(out)@ + cbor_bytes(CborV::Bytes(b@)),
{
    let _ = serde_cbor::Serializer::new(out).serialize_bytes(b);
}

/// `serde_cbor::tags::Tagged` with `serde_bytes::Bytes` inside, over a
/// `Vec<u8>`: appends the head of a tag, then a byte string as
/// `serialize_bytes` writes it.
#[verifier::external_body]
pub(crate) fn cbor_write_tagged_bytes(out: &mut Vec<u8>, tag: u64, b: &[u8])
    ensures
        final(out)@ == old(out)@ + cbor_bytes(CborV::Tag(tag, Box::new(CborV::Bytes(b@)))),
{
    let value = serde_bytes::Bytes::new(b);
    let _ = serde_cbor::tags::Tagged::new(Some(tag), value).serialize(&mut serde_cbor::Serializer::new(out));
}

/// `serde_cbor::Serializer::serialize_seq` with a known length, over a
/// `Vec<u8>`: appends the head of an array of that length; closing it writes
/// nothing.
#[verifier::external_body]
pub(crate) fn cbor_write_array_head(out: &mut Vec<u8>, len: usize)
    ensures
        final(out)@ == old(out)@ + cbor_head(4, len as nat),
{
    let mut ser = serde_cbor::Serializer::new(out);
    if let Ok(seq) = (&mut ser).serialize_seq(Some(len)) {
        let _ = SerializeSeq::end(seq);
    }
}

/// `serde_cbor::Serializer::serialize_map` with a known length, over a
/// `Vec<u8>`: appends the head of a map of that length; closing it writes
/// nothing.
#[verifier::external_body]
pub(crate) fn cbor_write_map_head(out: &mut Vec<u8>, len: usize)
    ensures
        final(out)@ == old(out)@ + cbor_head(5, len as nat),
{
    let mut ser = serde_cbor::Serializer::new(out);
    if let Ok(map) = (&mut ser).serialize_map(Some(len)) {
        let _ = SerializeMap::end(map);
    }
}

// ---------------------------------------------------------------------------
// Reading back what was written.

/// The bit pattern is that of a NaN.
pub open spec fn float_is_nan(bits: u64) -> bool {
    (bits / 0x10_0000_0000_0000) % 0x800 == 0x7ff && bits % 0x10_0000_0000_0000 != 0
}

/// No float in the item is a NaN.
pub open spec fn cbor_no_nan(t: CborV) -> bool
    decreases t,
{
    match t {
        CborV::Float(f) => !float_is_nan(f),
        CborV::Array(a) => forall|i: int| 0 <= i < a.len() ==> cbor_no_nan(#[trigger] a[i]),
        CborV::Dict(d) => forall|i: int|
            0 <= i < d.len() ==> cbor_no_nan(#[trigger] d[i].0) && cbor_no_nan(d[i].1),
        CborV::Tag(_, b) => cbor_no_nan(*b),
        _ => true,
    }
}

/// Every map key in the item is a text string.
pub open spec fn cbor_text_keys(t: CborV) -> bool
    decreases t,
{
    match t {
        CborV::Array(a) => forall|i: int| 0 <= i < a.len() ==> cbor_text_keys(#[trigger] a[i]),
        CborV::Dict(d) => forall|i: int|
            0 <= i < d.len() ==> (#[trigger] d[i].0 is Text) && cbor_text_keys(d[i].1),
        CborV::Tag(_, b) => cbor_text_keys(*b),
        _ => true,
    }
}

/// Arrays, maps and tags nest at most `n` deep in the item.
pub open spec fn cbor_depth_within(t: CborV, n: int) -> bool
    decreases t,
{
    match t {
        CborV::Array(a) => n >= 1 && forall|i: int|
            0 <= i < a.len() ==> cbor_depth_within(#[trigger] a[i], n - 1),
        CborV::Dict(d) => n >= 1 && forall|i: int|
            0 <= i < d.len() ==> cbor_depth_within(#[trigger] d[i].0, n - 1) && cbor_depth_within(
                d[i].1,
                n - 1,
            ),
        CborV::Tag(_, b) => n >= 1 && cbor_depth_within(*b, n - 1),
        _ => true,
    }
}

/// How deep `serde_cbor` lets arrays, maps and tags nest when it reads.
pub open spec fn cbor_read_depth() -> int {
    127
}

/// An item that `serde_cbor` reads back from what it wrote: its integers fit,
/// it holds no NaN (whose payload the shortest float form loses), its map
/// keys are text strings, and it nests no deeper than the reader allows.
pub open spec fn cbor_writable(t: CborV) -> bool {
    &&& cbor_ints_fit(t)
    &&& cbor_no_nan(t)
    &&& cbor_text_keys(t)
    &&& cbor_depth_within(t, cbor_read_depth())
}

/// The order in which `serde_cbor::Value` keeps text keys: shorter UTF-8
/// first, then by bytes.
pub open spec fn canonical_key_lt(a: CborV, b: CborV) -> bool {
    match (a, b) {
        (CborV::Text(x), CborV::Text(y)) => {
            let bx = encode_utf8(x);
            let by = encode_utf8(y);
            bx.len() < by.len() || (bx.len() == by.len() && bytes_lt(bx, by))
        },
        _ => false,
    }
}

pub open spec fn canonical_key_order() -> spec_fn(CborV, CborV) -> bool {
    |a: CborV, b: CborV| canonical_key_lt(a, b)
}

/// The item as `serde_cbor::Value` holds it after reading: each map's entries
/// inserted one by one into a map ordered by `canonical_key_order`.
pub open spec fn cbor_canonical(t: CborV) -> CborV
    decreases t,
{
    match t {
        CborV::Array(a) => CborV::Array(cbor_canonical_seq(a)),
        CborV::Dict(d) => CborV::Dict(assoc_from_seq(cbor_canonical_pairs(d), canonical_key_order())),
        CborV::Tag(x, b) => CborV::Tag(x, Box::new(cbor_canonical(*b))),
        _ => t,
    }
}

pub open spec fn cbor_canonical_seq(s: Seq<CborV>) -> Seq<CborV>
    decreases s,
{
    if s.len() == 0 {
        seq![]
    } else {
        cbor_canonical_seq(s.drop_last()).push(cbor_canonical(s.last()))
    }
}

pub open spec fn cbor_canonical_pairs(s: Seq<(CborV, CborV)>) -> Seq<(CborV, CborV)>
    decreases s,
{
    if s.len() == 0 {
        seq![]
    } else {
        cbor_canonical_pairs(s.drop_last()).push(
            (cbor_canonical(s.last().0), cbor_canonical(s.last().1)),
        )
    }
}

pub proof fn lemma_cbor_canonical_seq(s: Seq<CborV>)
    ensures
        cbor_canonical_seq(s).len() == s.len(),
        forall|i: int| 0 <= i < s.len() ==> #[trigger] cbor_canonical_seq(s)[i] == cbor_canonical(s[i]),
    decreases s.len(),
{
    if s.len() > 0 {
        lemma_cbor_canonical_seq(s.drop_last());
    }
}

pub proof fn lemma_cbor_canonical_pairs(s: Seq<(CborV, CborV)>)
    ensures
        cbor_canonical_pairs(s).len() == s.len(),
        forall|i: int|
            0 <= i < s.len() ==> #[trigger] cbor_canonical_pairs(s)[i] == (
                cbor_canonical(s[i].0),
                cbor_canonical(s[i].1),
            ),
    decreases s.len(),
{
    if s.len() > 0 {
        lemma_cbor_canonical_pairs(s.drop_last());
    }
}

/// What `serde_cbor::Value::deserialize` reads from the start of the bytes,
/// through a `serde_cbor::Deserializer` over them, with maps as ordered
/// entries; `None` where it refuses them. Bytes after the first data item are
/// not read.
pub uninterp spec fn cbor_decoded(data: Seq<u8>) -> Option<CborV>;

/// The dynamically typed CBOR value of `serde_cbor`.
#[verifier::external_type_specification]
#[verifier::external_body]
pub struct ExCborValue(serde_cbor::Value);

/// Copies a `serde_cbor::Value` into the library's `CborValue`, variant for
/// variant; a float is copied as its bit pattern and a map as its entries in
/// the map's order.
#[verifier::external_body]
fn cbor_value_copy(v: Value) -> CborValue {
    match v {
        Value::Null => CborValue::Null,
        Value::Bool(b) => CborValue::Bool(b),
        Value::Integer(i) => CborValue::Integer(i),
        Value::Float(f) => CborValue::Float(f.to_bits()),
        Value::Bytes(b) => CborValue::Bytes(b),
        Value::Text(s) => CborValue::Text(s),
        Value::Array(a) => CborValue::Array(a.into_iter().map(cbor_value_copy).collect()),
        Value::Map(m) => CborValue::Dict(
            m.into_iter().map(|(k, x)| (cbor_value_copy(k), cbor_value_copy(x))).collect(),
        ),
        Value::Tag(t, b) => CborValue::Tag(t, Box::new(cbor_value_copy(*b))),
        _ => CborValue::Null,
    }
}

/// `serde_cbor::Value::deserialize` on a `serde_cbor::Deserializer` made by
/// `Deserializer::from_slice`: reads the first CBOR data item of `data` and
/// leaves what follows it unread. What it reads is named by `cbor_decoded`.
/// The contract also states that every integer it gives lies in the range of
/// CBOR's integer heads (it reads them from at most 8 bytes after the head),
/// and that it reads back what its serializer writes for an item that
/// `cbor_writable` admits, with each map's entries in the order of its
/// `BTreeMap` (see `cbor_canonical`), whatever follows that item.
#[verifier::external_body]
pub(crate) fn cbor_read(data: &[u8]) -> (r: Result<CborValue, serde_cbor::Error>)
    ensures
        r matches Ok(v) ==> cbor_decoded(data@) == Some(v@),
        r is Err ==> cbor_decoded(data@) is None,
        r matches Ok(v) ==> cbor_ints_fit(v@),
        forall|t: CborV| #[trigger] cbor_bytes(t).is_prefix_of(data@) && cbor_writable(t) ==> r is Ok && r.unwrap()@ == cbor_canonical(t),
{
    let mut de = serde_cbor::Deserializer::from_slice(data);
    match Value::deserialize(&mut de) {
        Ok(v) => Ok(cbor_value_copy(v)),
        Err(e) => Err(e),
    }
}

} // verus!
