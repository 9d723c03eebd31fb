//! DAG-CBOR: IPLD values in CBOR, with links as byte strings under tag 42.

use vstd::prelude::*;
use vstd::utf8::{decode_utf8, valid_utf8};
use crate::cbor::{
    cbor_read, cbor_decoded, cbor_canonical, cbor_canonical_seq, cbor_canonical_pairs,
    lemma_cbor_canonical_seq, lemma_cbor_canonical_pairs, cbor_writable, cbor_no_nan,
    cbor_text_keys, cbor_depth_within, cbor_read_depth, canonical_key_order, CborValue,
    lemma_cbor_seq_view, lemma_cbor_pairs_view, cbor_seq_view, cbor_pairs_view, cbor_view,
    cbor_bytes, cbor_head, cbor_ints_fit, cbor_pairs_bytes, cbor_pairs_ints_fit, cbor_seq_bytes,
    cbor_seq_ints_fit, cbor_write_array_head, cbor_write_bool, cbor_write_bytes, cbor_write_float,
    cbor_write_integer, cbor_write_map_head, cbor_write_null, cbor_write_tagged_bytes,
    cbor_write_text, CborV, cbor_float_bytes, be_bytes,
};
use crate::ipld::{ipld_seq_view, ipld_wf, lemma_ipld_seq_view, Ipld, IpldMap, IpldV};
use crate::order::{
    assoc_from_seq, assoc_insert, key_order, lemma_assoc_from_seq_entries,
    lemma_assoc_from_seq_sorted, lemma_assoc_insert_sorted, lemma_key_order_strict_total,
    lemma_sorted_same_entries_eq,
    lemma_sorted_unique, sorted_by, unique_keys,
};

verus! {

/// The CBOR tag that marks a link (a CID).
pub const CID_TAG: u64 = 42;

/// Why an IPLD value could not be encoded.
#[derive(Debug, PartialEq, Eq, Structural, Clone, Copy)]
pub enum EncodeError {
    /// An integer lies outside the range that CBOR can hold, -2^64 to 2^64 - 1.
    IntegerOutOfRange,
}

/// The CBOR data item that an IPLD value is written as.
pub open spec fn ipld_to_cbor(x: IpldV) -> CborV
    decreases x,
{
    match x {
        IpldV::Null => CborV::Null,
        IpldV::Bool(b) => CborV::Bool(b),
        IpldV::Integer(i) => CborV::Integer(i),
        IpldV::Float(f) => CborV::Float(f),
        IpldV::String(s) => CborV::Text(s),
        IpldV::Bytes(b) => CborV::Bytes(b),
        IpldV::List(l) => CborV::Array(ipld_seq_to_cbor(l)),
        IpldV::Dict(d) => CborV::Dict(ipld_entries_to_cbor(d)),
        IpldV::Link(l) => CborV::Tag(CID_TAG, Box::new(CborV::Bytes(l))),
    }
}

pub open spec fn ipld_seq_to_cbor(s: Seq<IpldV>) -> Seq<CborV>
    decreases s,
{
    if s.len() == 0 {
        seq![]
    } else {
        ipld_seq_to_cbor(s.drop_last()).push(ipld_to_cbor(s.last()))
    }
}

pub open spec fn ipld_entries_to_cbor(s: Seq<(Seq<char>, IpldV)>) -> Seq<(CborV, CborV)>
    decreases s,
{
    if s.len() == 0 {
        seq![]
    } else {
        ipld_entries_to_cbor(s.drop_last()).push((CborV::Text(s.last().0), ipld_to_cbor(s.last().1)))
    }
}

pub proof fn lemma_ipld_seq_to_cbor(s: Seq<IpldV>)
    ensures
        ipld_seq_to_cbor(s).len() == s.len(),
        forall|i: int| 0 <= i < s.len() ==> #[trigger] ipld_seq_to_cbor(s)[i] == ipld_to_cbor(s[i]),
    decreases s.len(),
{
    if s.len() > 0 {
        lemma_ipld_seq_to_cbor(s.drop_last());
    }
}

pub proof fn lemma_ipld_entries_to_cbor(s: Seq<(Seq<char>, IpldV)>)
    ensures
        ipld_entries_to_cbor(s).len() == s.len(),
        forall|i: int|
            0 <= i < s.len() ==> #[trigger] ipld_entries_to_cbor(s)[i] == (
                CborV::Text(s[i].0),
                ipld_to_cbor(s[i].1),
            ),
    decreases s.len(),
{
    if s.len() > 0 {
        lemma_ipld_entries_to_cbor(s.drop_last());
    }
}

/// The DAG-CBOR encoding of an IPLD value.
pub open spec fn dag_cbor_bytes(x: IpldV) -> Seq<u8> {
    cbor_bytes(ipld_to_cbor(x))
}

/// Every integer in the value fits CBOR.
pub open spec fn dag_cbor_encodable(x: IpldV) -> bool {
    cbor_ints_fit(ipld_to_cbor(x))
}

/// Encodes an IPLD value as DAG-CBOR.
pub fn encode(ipld: &Ipld) -> (r: Result<Vec<u8>, EncodeError>)
    ensures
        r is Ok <==> dag_cbor_encodable(ipld@),
        r matches Ok(bytes) ==> bytes@ == dag_cbor_bytes(ipld@),
        r is Err ==> r == Err::<Vec<u8>, EncodeError>(EncodeError::IntegerOutOfRange),
{
    let mut out: Vec<u8> = Vec::new();
    match encode_into(ipld, &mut out) {
        Ok(()) => {
            assert(out@ =~= dag_cbor_bytes(ipld@));
            Ok(out)
        },
        Err(e) => Err(e),
    }
}

/// Appends the DAG-CBOR encoding of `x` to `out`.
fn encode_into(x: &Ipld, out: &mut Vec<u8>) -> (r: Result<(), EncodeError>)
    ensures
        r is Ok <==> dag_cbor_encodable(x@),
        r is Ok ==> final(out)@ == old(out)@ + dag_cbor_bytes(x@),
        r is Err ==> r == Err::<(), EncodeError>(EncodeError::IntegerOutOfRange),
    decreases x@,
{
    match x {
        Ipld::Null => {
            cbor_write_null(out);
            Ok(())
        },
        Ipld::Bool(b) => {
            cbor_write_bool(out, *b);
            Ok(())
        },
        Ipld::Integer(i) => {
            match cbor_write_integer(out, *i) {
                Ok(()) => Ok(()),
                Err(_) => Err(EncodeError::IntegerOutOfRange),
            }
        },
        Ipld::Float(f) => {
            cbor_write_float(out, *f);
            Ok(())
        },
        Ipld::String(s) => {
            cbor_write_text(out, s.as_str());
            Ok(())
        },
        Ipld::Bytes(b) => {
            cbor_write_bytes(out, b.as_slice());
            Ok(())
        },
        Ipld::Link(l) => {
            cbor_write_tagged_bytes(out, CID_TAG, l.as_slice());
            assert(ipld_to_cbor(x@) == CborV::Tag(CID_TAG, Box::new(CborV::Bytes(l@))));
            assert(cbor_ints_fit(CborV::Bytes(l@)));
            Ok(())
        },
        Ipld::List(l) => {
            let ghost start = old(out)@;
            let ghost items = ipld_seq_to_cbor(ipld_seq_view(l@));
            proof {
                assert(ipld_to_cbor(x@) == CborV::Array(items));
                lemma_ipld_seq_view(l@);
                lemma_ipld_seq_to_cbor(ipld_seq_view(l@));
                assert(items.take(0) =~= Seq::<CborV>::empty());
                assert forall|j: int| 0 <= j < l@.len() implies decreases_to!(x@ => #[trigger] l@[j]@) by {
                    let sv = ipld_seq_view(l@);
                    vstd::seq::axiom_seq_index_decreases(sv, j);
                    assert(x@ == IpldV::List(sv));
                    let xv = x@;
                    assert(decreases_to!(xv => xv->List_0));
                    assert(decreases_to!(sv => sv[j]));
                }
            }
            cbor_write_array_head(out, l.len());
            let mut i: usize = 0;
            while i < l.len()
                invariant
                    i <= l.len(),
                    items.len() == l@.len(),
                    ipld_to_cbor(x@) == CborV::Array(items),
                    forall|j: int| 0 <= j < l@.len() ==> #[trigger] items[j] == ipld_to_cbor(l@[j]@),
                    forall|j: int| 0 <= j < l@.len() ==> decreases_to!(x@ => #[trigger] l@[j]@),
                    out@ == start + cbor_head(4, l@.len() as nat) + cbor_seq_bytes(items.take(i as int)),
                    cbor_seq_ints_fit(items.take(i as int)),
                decreases l.len() - i,
            {
                let ghost before = out@;
                match encode_into(&l[i], out) {
                    Ok(()) => {},
                    Err(e) => {
                        proof {
                            lemma_seq_ints_fit_each(items);
                            assert(items[i as int] == ipld_to_cbor(l@[i as int]@));
                            assert(!cbor_ints_fit(items[i as int]));
                            assert(!cbor_seq_ints_fit(items));
                        }
                        return Err(e);
                    },
                }
                proof {
                    assert(items.take(i + 1).drop_last() =~= items.take(i as int));
                }
                i += 1;
            }
            proof {
                assert(items.take(l@.len() as int) =~= items);
            }
            Ok(())
        },
        Ipld::Dict(m) => {
            let ghost start = old(out)@;
            let ghost es = ipld_entries_to_cbor(m@);
            proof {
                assert(ipld_to_cbor(x@) == CborV::Dict(es));
                lemma_ipld_entries_to_cbor(m@);
                assert(es.take(0) =~= Seq::<(CborV, CborV)>::empty());
                assert forall|j: int| 0 <= j < m@.len() implies decreases_to!(x@ => #[trigger] m@[j].1) by {
                    vstd::seq::axiom_seq_index_decreases(m@, j);
                    assert(x@ == IpldV::Dict(m@));
                    let xv = x@;
                    let e = m@[j];
                    assert(decreases_to!(xv => xv->Dict_0));
                    assert(decreases_to!(m@ => m@[j]));
                    assert(decreases_to!(e => e.1));
                }
            }
            let n = m.len();
            cbor_write_map_head(out, n);
            let mut i: usize = 0;
            while i < n
                invariant
                    n == m@.len(),
                    i <= n,
                    es.len() == m@.len(),
                    ipld_to_cbor(x@) == CborV::Dict(es),
                    forall|j: int| 0 <= j < m@.len() ==> #[trigger] es[j] == (CborV::Text(m@[j].0), ipld_to_cbor(m@[j].1)),
                    forall|j: int| 0 <= j < m@.len() ==> decreases_to!(x@ => #[trigger] m@[j].1),
                    out@ == start + cbor_head(5, n as nat) + cbor_pairs_bytes(es.take(i as int)),
                    cbor_pairs_ints_fit(es.take(i as int)),
                decreases n - i,
            {
                let (k, v) = m.entry(i);
                assert(v@ == m@[i as int].1);
                cbor_write_text(out, k.as_str());
                match encode_into(v, out) {
                    Ok(()) => {},
                    Err(e) => {
                        proof {
                            lemma_pairs_ints_fit_each(es);
                            assert(es[i as int] == (CborV::Text(m@[i as int].0), ipld_to_cbor(m@[i as int].1)));
                            assert(cbor_ints_fit(es[i as int].0));
                            assert(!cbor_ints_fit(es[i as int].1));
                            assert(!cbor_pairs_ints_fit(es));
                        }
                        return Err(e);
                    },
                }
                proof {
                    assert(es.take(i + 1).drop_last() =~= es.take(i as int));
                    assert(es[i as int] == (CborV::Text(m@[i as int].0), ipld_to_cbor(m@[i as int].1)));
                    assert(cbor_ints_fit(es[i as int].0));
                }
                i += 1;
            }
            proof {
                assert(es.take(n as int) =~= es);
            }
            Ok(())
        },
    }
}

/// Every item of a sequence that fits, fits.
pub proof fn lemma_seq_ints_fit_each(s: Seq<CborV>)
    ensures
        cbor_seq_ints_fit(s) ==> forall|j: int| 0 <= j < s.len() ==> cbor_ints_fit(#[trigger] s[j]),
    decreases s.len(),
{
    if s.len() > 0 {
        lemma_seq_ints_fit_each(s.drop_last());
        if cbor_seq_ints_fit(s) {
            assert forall|j: int| 0 <= j < s.len() implies cbor_ints_fit(#[trigger] s[j]) by {
                if j < s.len() - 1 {
                    assert(s.drop_last()[j] == s[j]);
                }
            }
        }
    }
}

/// Every key and value of a list of entries that fits, fits.
pub proof fn lemma_pairs_ints_fit_each(s: Seq<(CborV, CborV)>)
    ensures
        cbor_pairs_ints_fit(s) ==> forall|j: int| 0 <= j < s.len() ==> cbor_ints_fit(#[trigger] s[j].0) && cbor_ints_fit(s[j].1),
    decreases s.len(),
{
    if s.len() > 0 {
        lemma_pairs_ints_fit_each(s.drop_last());
        if cbor_pairs_ints_fit(s) {
            assert forall|j: int| 0 <= j < s.len() implies cbor_ints_fit(#[trigger] s[j].0) && cbor_ints_fit(s[j].1) by {
                if j < s.len() - 1 {
                    assert(s.drop_last()[j] == s[j]);
                }
            }
        }
    }
}

// ---------------------------------------------------------------------------
// Decoding.

/// Why bytes could not be decoded as an IPLD value.
#[derive(Debug, PartialEq, Eq, Structural, Clone, Copy)]
pub enum DecodeError {
    /// The bytes do not start with a well-formed CBOR data item, as
    /// `serde_cbor` reads it.
    Malformed,
    /// A map key is neither a text string nor a byte string that holds
    /// UTF-8.
    NonTextKey,
    /// Tag 42 marks something other than a byte string.
    LinkNotBytes,
    /// A tag other than 42.
    UnexpectedTag(u64),
}

/// The IPLD value that a CBOR item stands for. With `strict`, as DAG-CBOR
/// reads it: tag 42 must hold a byte string and any other tag is refused.
/// Without, a tag other than 42 stands for the item it marks, and tag 42 for a
/// link when the item it marks stands for bytes. Errors come in the order of a
/// depth-first walk.
pub open spec fn cbor_to_ipld(v: CborV, strict: bool) -> Result<IpldV, DecodeError>
    decreases v,
{
    match v {
        CborV::Null => Ok(IpldV::Null),
        CborV::Bool(b) => Ok(IpldV::Bool(b)),
        CborV::Integer(i) => Ok(IpldV::Integer(i)),
        CborV::Float(f) => Ok(IpldV::Float(f)),
        CborV::Bytes(b) => Ok(IpldV::Bytes(b)),
        CborV::Text(t) => Ok(IpldV::String(t)),
        CborV::Array(a) => match cbor_seq_to_ipld(a, strict) {
            Ok(l) => Ok(IpldV::List(l)),
            Err(e) => Err(e),
        },
        CborV::Dict(d) => match cbor_pairs_to_ipld(d, strict) {
            Ok(es) => Ok(IpldV::Dict(es)),
            Err(e) => Err(e),
        },
        CborV::Tag(t, b) => if t == CID_TAG {
            if strict {
                match *b {
                    CborV::Bytes(l) => Ok(IpldV::Link(l)),
                    _ => Err(DecodeError::LinkNotBytes),
                }
            } else {
                match cbor_to_ipld(*b, strict) {
                    Ok(IpldV::Bytes(l)) => Ok(IpldV::Link(l)),
                    Ok(_) => Err(DecodeError::LinkNotBytes),
                    Err(e) => Err(e),
                }
            }
        } else if strict {
            Err(DecodeError::UnexpectedTag(t))
        } else {
            cbor_to_ipld(*b, strict)
        },
    }
}

pub open spec fn cbor_seq_to_ipld(s: Seq<CborV>, strict: bool) -> Result<Seq<IpldV>, DecodeError>
    decreases s,
{
    if s.len() == 0 {
        Ok(seq![])
    } else {
        match cbor_seq_to_ipld(s.drop_last(), strict) {
            Ok(l) => match cbor_to_ipld(s.last(), strict) {
                Ok(x) => Ok(l.push(x)),
                Err(e) => Err(e),
            },
            Err(e) => Err(e),
        }
    }
}

/// The string that a CBOR map key stands for: a text string, or a byte
/// string that holds UTF-8 (read as a `String` is read from either).
pub open spec fn cbor_key(k: CborV) -> Option<Seq<char>> {
    match k {
        CborV::Text(t) => Some(t),
        CborV::Bytes(b) => if valid_utf8(b) {
            Some(decode_utf8(b))
        } else {
            None
        },
        _ => None,
    }
}

/// Each entry in turn is inserted into a map ordered by key: a later entry
/// replaces an earlier one with the same key.
pub open spec fn cbor_pairs_to_ipld(s: Seq<(CborV, CborV)>, strict: bool) -> Result<
    Seq<(Seq<char>, IpldV)>,
    DecodeError,
>
    decreases s,
{
    if s.len() == 0 {
        Ok(seq![])
    } else {
        match cbor_pairs_to_ipld(s.drop_last(), strict) {
            Ok(m) => match cbor_key(s.last().0) {
                Some(k) => match cbor_to_ipld(s.last().1, strict) {
                    Ok(x) => Ok(assoc_insert(m, k, x, key_order())),
                    Err(e) => Err(e),
                },
                None => Err(DecodeError::NonTextKey),
            },
            Err(e) => Err(e),
        }
    }
}

/// What decoding the bytes gives.
pub open spec fn dag_cbor_decoded(data: Seq<u8>, strict: bool) -> Result<IpldV, DecodeError> {
    match cbor_decoded(data) {
        Some(v) => cbor_to_ipld(v, strict),
        None => Err(DecodeError::Malformed),
    }
}

/// An IPLD value that DAG-CBOR gives back after encoding: its maps are in key
/// order, its integers fit CBOR, it holds no NaN and it nests at most 127
/// deep (a link counts as one level).
pub open spec fn dag_cbor_roundtrips(x: IpldV) -> bool {
    &&& ipld_wf(x)
    &&& cbor_ints_fit(ipld_to_cbor(x))
    &&& cbor_no_nan(ipld_to_cbor(x))
    &&& cbor_depth_within(ipld_to_cbor(x), cbor_read_depth())
}

/// A failure on a prefix is a failure of the whole.
proof fn lemma_seq_to_ipld_prefix_err(s: Seq<CborV>, strict: bool, j: int)
    requires
        0 <= j <= s.len(),
        cbor_seq_to_ipld(s.take(j), strict) is Err,
    ensures
        cbor_seq_to_ipld(s, strict) == cbor_seq_to_ipld(s.take(j), strict),
    decreases s.len(),
{
    if j == s.len() {
        assert(s.take(j) =~= s);
    } else {
        assert(s.drop_last().take(j) =~= s.take(j));
        lemma_seq_to_ipld_prefix_err(s.drop_last(), strict, j);
    }
}

/// A failure on a prefix is a failure of the whole.
proof fn lemma_pairs_to_ipld_prefix_err(s: Seq<(CborV, CborV)>, strict: bool, j: int)
    requires
        0 <= j <= s.len(),
        cbor_pairs_to_ipld(s.take(j), strict) is Err,
    ensures
        cbor_pairs_to_ipld(s, strict) == cbor_pairs_to_ipld(s.take(j), strict),
    decreases s.len(),
{
    if j == s.len() {
        assert(s.take(j) =~= s);
    } else {
        assert(s.drop_last().take(j) =~= s.take(j));
        lemma_pairs_to_ipld_prefix_err(s.drop_last(), strict, j);
    }
}

/// `String::from_utf8`: the string whose UTF-8 encoding is the bytes, or
/// `None` where they are not UTF-8 (std documents that it fails exactly on
/// bytes that are not UTF-8, and that the string holds the bytes unchanged).
#[verifier::external_body]
fn string_from_utf8(b: Vec<u8>) -> (r: Option<String>)
    ensures
        r is Some <==> valid_utf8(b@),
        r matches Some(t) ==> t@ == decode_utf8(b@),
{
    match String::from_utf8(b) {
        Ok(t) => Some(t),
        Err(_) => None,
    }
}

/// Converts a decoded CBOR item into an IPLD value (see `cbor_to_ipld`).
fn cbor_into_ipld(v: CborValue, strict: bool) -> (r: Result<Ipld, DecodeError>)
    ensures
        match r {
            Ok(x) => cbor_to_ipld(v@, strict) == Ok::<IpldV, DecodeError>(x@),
            Err(e) => cbor_to_ipld(v@, strict) == Err::<IpldV, DecodeError>(e),
        },
    decreases v@,
{
    let ghost vv = v@;
    match v {
        CborValue::Null => Ok(Ipld::Null),
        CborValue::Bool(b) => Ok(Ipld::Bool(b)),
        CborValue::Integer(i) => Ok(Ipld::Integer(i)),
        CborValue::Float(f) => Ok(Ipld::Float(f)),
        CborValue::Bytes(b) => Ok(Ipld::Bytes(b)),
        CborValue::Text(t) => Ok(Ipld::String(t)),
        CborValue::Tag(t, b) => {
            let ghost inner = cbor_view(*b);
            assert(vv == CborV::Tag(t, Box::new(inner)));
            if t == CID_TAG {
                if strict {
                    match *b {
                        CborValue::Bytes(l) => Ok(Ipld::Link(l)),
                        _ => Err(DecodeError::LinkNotBytes),
                    }
                } else {
                    assert(decreases_to!(vv => inner)) by {
                        assert(decreases_to!(vv => vv->Tag_1));
                    }
                    match cbor_into_ipld(*b, strict) {
                        Ok(Ipld::Bytes(l)) => Ok(Ipld::Link(l)),
                        Ok(_) => Err(DecodeError::LinkNotBytes),
                        Err(e) => Err(e),
                    }
                }
            } else if strict {
                Err(DecodeError::UnexpectedTag(t))
            } else {
                assert(decreases_to!(vv => inner)) by {
                    assert(decreases_to!(vv => vv->Tag_1));
                }
                cbor_into_ipld(*b, strict)
            }
        },
        CborValue::Array(a) => {
            let ghost av = a@;
            let ghost sv = cbor_seq_view(av);
            proof {
                lemma_cbor_seq_view(av);
                assert(vv == CborV::Array(sv));
                assert forall|j: int| 0 <= j < av.len() implies decreases_to!(vv => #[trigger] av[j]@) by {
                    vstd::seq::axiom_seq_index_decreases(sv, j);
                    assert(decreases_to!(vv => vv->Array_0));
                    assert(decreases_to!(sv => sv[j]));
                }
                assert(sv.take(0) =~= Seq::<CborV>::empty());
            }
            let mut out: Vec<Ipld> = Vec::new();
            for item in it: a.into_iter()
                invariant
                    it.seq() == av,
                    sv.len() == av.len(),
                    forall|j: int| 0 <= j < av.len() ==> #[trigger] sv[j] == av[j]@,
                    forall|j: int| 0 <= j < av.len() ==> decreases_to!(vv => #[trigger] av[j]@),
                    vv == CborV::Array(sv),
                    vv == v@,
                    out@.len() == it.index(),
                    cbor_seq_to_ipld(sv.take(it.index() as int), strict) == Ok::<Seq<IpldV>, DecodeError>(ipld_seq_view(out@)),
            {
                let ghost i = it.index();
                assert(item@ == sv[i as int]);
                assert(item@ == av[i as int]@);
                assert(sv.take(i + 1).last() == sv[i as int]);
                match cbor_into_ipld(item, strict) {
                    Ok(x) => {
                        proof {
                            assert(sv.take(i + 1).drop_last() =~= sv.take(i as int));
                        }
                        let ghost before = out@;
                        out.push(x);
                        proof {
                            assert(out@.drop_last() =~= before);
                        }
                    },
                    Err(e) => {
                        proof {
                            assert(sv.take(i + 1).drop_last() =~= sv.take(i as int));
                            assert(cbor_seq_to_ipld(sv.take(i + 1), strict) == Err::<Seq<IpldV>, DecodeError>(e));
                            lemma_seq_to_ipld_prefix_err(sv, strict, i + 1);
                        }
                        return Err(e);
                    },
                }
            }
            proof {
                assert(sv.take(av.len() as int) =~= sv);
                lemma_ipld_seq_view(out@);
            }
            Ok(Ipld::List(out))
        },
        CborValue::Dict(d) => {
            let ghost dv = d@;
            let ghost pv = cbor_pairs_view(dv);
            proof {
                lemma_cbor_pairs_view(dv);
                assert(vv == CborV::Dict(pv));
                assert forall|j: int| 0 <= j < dv.len() implies decreases_to!(vv => #[trigger] dv[j].1@) by {
                    vstd::seq::axiom_seq_index_decreases(pv, j);
                    let e = pv[j];
                    assert(decreases_to!(vv => vv->Dict_0));
                    assert(decreases_to!(pv => pv[j]));
                    assert(decreases_to!(e => e.1));
                }
                assert(pv.take(0) =~= Seq::<(CborV, CborV)>::empty());
            }
            let mut m = IpldMap::new();
            for entry in it: d.into_iter()
                invariant
                    it.seq() == dv,
                    pv.len() == dv.len(),
                    forall|j: int| 0 <= j < dv.len() ==> #[trigger] pv[j] == (dv[j].0@, dv[j].1@),
                    forall|j: int| 0 <= j < dv.len() ==> decreases_to!(vv => #[trigger] dv[j].1@),
                    vv == CborV::Dict(pv),
                    vv == v@,
                    cbor_pairs_to_ipld(pv.take(it.index() as int), strict) == Ok::<Seq<(Seq<char>, IpldV)>, DecodeError>(m@),
            {
                let ghost i = it.index();
                let (k, x) = entry;
                assert(pv[i as int] == (k@, x@));
                assert(x@ == dv[i as int].1@);
                assert(pv.take(i + 1).last() == pv[i as int]);
                proof {
                    assert(pv.take(i + 1).drop_last() =~= pv.take(i as int));
                }
                let ghost kv = k@;
                let key_opt: Option<String> = match k {
                    CborValue::Text(t) => Some(t),
                    CborValue::Bytes(b) => string_from_utf8(b),
                    _ => None,
                };
                assert(match key_opt {
                    Some(t) => cbor_key(kv) == Some(t@),
                    None => cbor_key(kv) is None,
                });
                match key_opt {
                    Some(key) => {
                        match cbor_into_ipld(x, strict) {
                            Ok(y) => {
                                m.insert(key, y);
                            },
                            Err(e) => {
                                proof {
                                    assert(cbor_pairs_to_ipld(pv.take(i + 1), strict) == Err::<Seq<(Seq<char>, IpldV)>, DecodeError>(e));
                                    lemma_pairs_to_ipld_prefix_err(pv, strict, i + 1);
                                }
                                return Err(e);
                            },
                        }
                    },
                    None => {
                        proof {
                            lemma_pairs_to_ipld_prefix_err(pv, strict, i + 1);
                        }
                        return Err(DecodeError::NonTextKey);
                    },
                }
            }
            proof {
                assert(pv.take(dv.len() as int) =~= pv);
            }
            Ok(Ipld::Dict(m))
        },
    }
}

/// Converts a CBOR item read by `serde_cbor` into an IPLD value as DAG-CBOR
/// does (see `cbor_to_ipld`, strict).
pub fn ipld_from_cbor(v: CborValue) -> (r: Result<Ipld, DecodeError>)
    ensures
        match r {
            Ok(x) => cbor_to_ipld(v@, true) == Ok::<IpldV, DecodeError>(x@),
            Err(e) => cbor_to_ipld(v@, true) == Err::<IpldV, DecodeError>(e),
        },
{
    cbor_into_ipld(v, true)
}

/// Converts a CBOR item read by `serde_cbor` into an IPLD value, looking
/// through tags other than 42 (see `cbor_to_ipld`, not strict).
pub fn ipld_from_cbor_ignoring_tags(v: CborValue) -> (r: Result<Ipld, DecodeError>)
    ensures
        match r {
            Ok(x) => cbor_to_ipld(v@, false) == Ok::<IpldV, DecodeError>(x@),
            Err(e) => cbor_to_ipld(v@, false) == Err::<IpldV, DecodeError>(e),
        },
{
    cbor_into_ipld(v, false)
}

/// Decodes the first DAG-CBOR data item of the bytes into an IPLD value;
/// bytes after it are not read. What an encoding gives back is the value
/// encoded, for every value that `dag_cbor_roundtrips` admits, and what it
/// gives can always be encoded again.
pub fn decode(data: &[u8]) -> (r: Result<Ipld, DecodeError>)
    ensures
        match r {
            Ok(x) => dag_cbor_decoded(data@, true) == Ok::<IpldV, DecodeError>(x@),
            Err(e) => dag_cbor_decoded(data@, true) == Err::<IpldV, DecodeError>(e),
        },
        r matches Ok(x) ==> dag_cbor_encodable(x@),
        forall|x: IpldV| #[trigger] dag_cbor_bytes(x).is_prefix_of(data@) && dag_cbor_roundtrips(x) ==> r is Ok
            && r.unwrap()@ == x,
{
    decode_with(data, true)
}

/// Decodes the first CBOR data item of the bytes into an IPLD value, looking
/// through tags other than 42; bytes after it are not read. What a DAG-CBOR
/// encoding gives back is the value encoded, for every value that
/// `dag_cbor_roundtrips` admits, and what it gives can always be encoded
/// again.
pub fn decode_ignoring_tags(data: &[u8]) -> (r: Result<Ipld, DecodeError>)
    ensures
        match r {
            Ok(x) => dag_cbor_decoded(data@, false) == Ok::<IpldV, DecodeError>(x@),
            Err(e) => dag_cbor_decoded(data@, false) == Err::<IpldV, DecodeError>(e),
        },
        r matches Ok(x) ==> dag_cbor_encodable(x@),
        forall|x: IpldV| #[trigger] dag_cbor_bytes(x).is_prefix_of(data@) && dag_cbor_roundtrips(x) ==> r is Ok
            && r.unwrap()@ == x,
{
    decode_with(data, false)
}

fn decode_with(data: &[u8], strict: bool) -> (r: Result<Ipld, DecodeError>)
    ensures
        match r {
            Ok(x) => dag_cbor_decoded(data@, strict) == Ok::<IpldV, DecodeError>(x@),
            Err(e) => dag_cbor_decoded(data@, strict) == Err::<IpldV, DecodeError>(e),
        },
        r matches Ok(x) ==> dag_cbor_encodable(x@),
        forall|x: IpldV| #[trigger] dag_cbor_bytes(x).is_prefix_of(data@) && dag_cbor_roundtrips(x) ==> r is Ok
            && r.unwrap()@ == x,
{
    match cbor_read(data) {
        Ok(v) => {
            let ghost vv = v@;
            let r = cbor_into_ipld(v, strict);
            proof {
                lemma_decoded_encodable(vv, strict);
                assert forall|x: IpldV| #[trigger] dag_cbor_bytes(x).is_prefix_of(data@) && dag_cbor_roundtrips(x) implies r is Ok
                    && r.unwrap()@ == x by {
                    lemma_text_keys(x);
                    assert(cbor_writable(ipld_to_cbor(x)));
                    assert(cbor_bytes(ipld_to_cbor(x)).is_prefix_of(data@));
                    assert(vv == cbor_canonical(ipld_to_cbor(x)));
                    lemma_roundtrip(x, strict);
                }
            }
            r
        },
        Err(_) => {
            proof {
                assert forall|x: IpldV| #[trigger] dag_cbor_bytes(x).is_prefix_of(data@) && dag_cbor_roundtrips(x) implies false by {
                    lemma_text_keys(x);
                    assert(cbor_writable(ipld_to_cbor(x)));
                    assert(cbor_bytes(ipld_to_cbor(x)).is_prefix_of(data@));
                }
            }
            Err(DecodeError::Malformed)
        },
    }
}

/// Every map key that DAG-CBOR writes is a text string.
proof fn lemma_text_keys(x: IpldV)
    ensures
        cbor_text_keys(ipld_to_cbor(x)),
    decreases x,
{
    match x {
        IpldV::List(l) => {
            lemma_ipld_seq_to_cbor(l);
            assert(ipld_to_cbor(x) == CborV::Array(ipld_seq_to_cbor(l)));
            let a = ipld_seq_to_cbor(l);
            assert forall|i: int| 0 <= i < a.len() implies cbor_text_keys(#[trigger] a[i]) by {
                lemma_text_keys(l[i]);
            }
            assert(cbor_text_keys(CborV::Array(a)));
        },
        IpldV::Dict(d) => {
            lemma_ipld_entries_to_cbor(d);
            assert(ipld_to_cbor(x) == CborV::Dict(ipld_entries_to_cbor(d)));
            assert forall|i: int| 0 <= i < d.len() implies (#[trigger] ipld_entries_to_cbor(d)[i].0 is Text)
                && cbor_text_keys(ipld_entries_to_cbor(d)[i].1) by {
                lemma_text_keys(d[i].1);
            }
        },
        IpldV::Link(l) => {
            assert(ipld_to_cbor(x) == CborV::Tag(CID_TAG, Box::new(CborV::Bytes(l))));
            assert(cbor_text_keys(CborV::Bytes(l)));
        },
        _ => {},
    }
}

/// Converting items one by one that each convert.
proof fn lemma_seq_to_ipld_ok(s: Seq<CborV>, ys: Seq<IpldV>, strict: bool)
    requires
        s.len() == ys.len(),
        forall|i: int| 0 <= i < s.len() ==> cbor_to_ipld(#[trigger] s[i], strict) == Ok::<IpldV, DecodeError>(ys[i]),
    ensures
        cbor_seq_to_ipld(s, strict) == Ok::<Seq<IpldV>, DecodeError>(ys),
    decreases s.len(),
{
    if s.len() > 0 {
        assert forall|i: int| 0 <= i < s.len() - 1 implies cbor_to_ipld(#[trigger] s.drop_last()[i], strict) == Ok::<IpldV, DecodeError>(ys.drop_last()[i]) by {
            assert(s.drop_last()[i] == s[i]);
        }
        lemma_seq_to_ipld_ok(s.drop_last(), ys.drop_last(), strict);
        assert(ys.drop_last().push(ys.last()) =~= ys);
        assert(cbor_to_ipld(s[s.len() - 1], strict) == Ok::<IpldV, DecodeError>(ys[ys.len() - 1]));
    } else {
        assert(ys =~= Seq::<IpldV>::empty());
    }
}

/// The entries that a list of text-keyed entries converts to, one by one.
pub open spec fn converted_pairs(d: Seq<(CborV, CborV)>, strict: bool) -> Seq<(Seq<char>, IpldV)> {
    Seq::new(d.len(), |i: int| (d[i].0->Text_0, cbor_to_ipld(d[i].1, strict)->Ok_0))
}

/// Converting entries one by one that each convert.
proof fn lemma_pairs_to_ipld_ok(d: Seq<(CborV, CborV)>, strict: bool)
    requires
        forall|i: int| 0 <= i < d.len() ==> (#[trigger] d[i].0 is Text) && cbor_to_ipld(d[i].1, strict) is Ok,
    ensures
        cbor_pairs_to_ipld(d, strict) == Ok::<Seq<(Seq<char>, IpldV)>, DecodeError>(
            assoc_from_seq(converted_pairs(d, strict), key_order()),
        ),
    decreases d.len(),
{
    if d.len() > 0 {
        let init = d.drop_last();
        assert forall|i: int| 0 <= i < init.len() implies (#[trigger] init[i].0 is Text) && cbor_to_ipld(init[i].1, strict) is Ok by {
            assert(init[i] == d[i]);
        }
        lemma_pairs_to_ipld_ok(init, strict);
        let p = converted_pairs(d, strict);
        assert(converted_pairs(init, strict) =~= p.drop_last());
        assert(d.last() == d[d.len() - 1]);
        assert(d[d.len() - 1].0 is Text);
    } else {
        assert(converted_pairs(d, strict) =~= Seq::<(Seq<char>, IpldV)>::empty());
    }
}

/// Decoding gives back what was encoded (after `serde_cbor` has reordered
/// each map's entries).
proof fn lemma_roundtrip(x: IpldV, strict: bool)
    requires
        ipld_wf(x),
    ensures
        cbor_to_ipld(cbor_canonical(ipld_to_cbor(x)), strict) == Ok::<IpldV, DecodeError>(x),
    decreases x,
{
    match x {
        IpldV::List(l) => {
            let s = ipld_seq_to_cbor(l);
            let c = cbor_canonical_seq(s);
            lemma_ipld_seq_to_cbor(l);
            lemma_cbor_canonical_seq(s);
            assert forall|i: int| 0 <= i < c.len() implies cbor_to_ipld(#[trigger] c[i], strict) == Ok::<IpldV, DecodeError>(l[i]) by {
                lemma_roundtrip(l[i], strict);
            }
            lemma_seq_to_ipld_ok(c, l, strict);
            assert(cbor_to_ipld(CborV::Array(c), strict) == Ok::<IpldV, DecodeError>(IpldV::List(l)));
            assert(ipld_to_cbor(x) == CborV::Array(s));
            assert(cbor_canonical(CborV::Array(s)) == CborV::Array(c));
        },
        IpldV::Dict(es) => {
            lemma_roundtrip_dict(es, strict);
        },
        IpldV::Link(b) => {
            assert(ipld_to_cbor(x) == CborV::Tag(CID_TAG, Box::new(CborV::Bytes(b))));
            assert(cbor_canonical(CborV::Bytes(b)) == CborV::Bytes(b));
            assert(cbor_to_ipld(CborV::Bytes(b), strict) == Ok::<IpldV, DecodeError>(IpldV::Bytes(b)));
        },
        _ => {},
    }
}

proof fn lemma_roundtrip_dict(es: Seq<(Seq<char>, IpldV)>, strict: bool)
    requires
        ipld_wf(IpldV::Dict(es)),
    ensures
        cbor_to_ipld(cbor_canonical(ipld_to_cbor(IpldV::Dict(es))), strict) == Ok::<IpldV, DecodeError>(IpldV::Dict(es)),
    decreases IpldV::Dict(es), 0int,
{
    lemma_key_order_strict_total();
    let e = ipld_entries_to_cbor(es);
    let cp = cbor_canonical_pairs(e);
    let c = assoc_from_seq(cp, canonical_key_order());
    lemma_ipld_entries_to_cbor(es);
    lemma_cbor_canonical_pairs(e);
    assert(cbor_canonical(ipld_to_cbor(IpldV::Dict(es))) == CborV::Dict(c));
    // each canonical entry is the text key and the canonical value of an entry
    assert forall|j: int| 0 <= j < cp.len() implies #[trigger] cp[j] == (CborV::Text(es[j].0), cbor_canonical(ipld_to_cbor(es[j].1))) by {}
    lemma_sorted_unique(es, key_order());
    assert(unique_keys(cp)) by {
        assert forall|i: int, j: int| 0 <= i < j < cp.len() implies #[trigger] cp[i].0 != #[trigger] cp[j].0 by {
            assert(es[i].0 != es[j].0);
        }
    }
    lemma_assoc_from_seq_entries(cp, canonical_key_order());
    // every entry of c converts
    assert forall|i: int| 0 <= i < c.len() implies (#[trigger] c[i].0 is Text) && cbor_to_ipld(c[i].1, strict) is Ok by {
        assert(c.contains(c[i]));
        let j = choose|j: int| 0 <= j < cp.len() && cp[j] == c[i];
        lemma_roundtrip(es[j].1, strict);
    }
    lemma_pairs_to_ipld_ok(c, strict);
    let p = converted_pairs(c, strict);
    // p holds exactly the entries of es
    assert forall|y: (Seq<char>, IpldV)| p.contains(y) <==> es.contains(y) by {
        if p.contains(y) {
            let i = choose|i: int| 0 <= i < p.len() && p[i] == y;
            assert(c.contains(c[i]));
            let j = choose|j: int| 0 <= j < cp.len() && cp[j] == c[i];
            lemma_roundtrip(es[j].1, strict);
            assert(es[j] == y);
        }
        if es.contains(y) {
            let j = choose|j: int| 0 <= j < es.len() && es[j] == y;
            assert(cp.contains(cp[j]));
            assert(c.contains(cp[j]));
            let i = choose|i: int| 0 <= i < c.len() && c[i] == cp[j];
            lemma_roundtrip(es[j].1, strict);
            assert(p[i] == y);
        }
    }
    assert(unique_keys(p)) by {
        assert forall|a: int, b: int| 0 <= a < b < p.len() implies #[trigger] p[a].0 != #[trigger] p[b].0 by {
            assert(c[a].0 != c[b].0);
            assert(c[a].0 is Text);
            assert(c[b].0 is Text);
        }
    }
    lemma_assoc_from_seq_entries(p, key_order());
    lemma_assoc_from_seq_sorted(p, key_order());
    let f = assoc_from_seq(p, key_order());
    assert forall|y: (Seq<char>, IpldV)| f.contains(y) <==> es.contains(y) by {
        assert(f.contains(y) <==> p.contains(y));
    }
    lemma_sorted_same_entries_eq(f, es, key_order());
}

/// Every value that decoding gives has its maps' keys in increasing order,
/// each key once.
pub proof fn law_decoded_maps_in_key_order(v: CborV, strict: bool)
    ensures
        cbor_to_ipld(v, strict) matches Ok(x) ==> ipld_wf(x),
    decreases v,
{
    match v {
        CborV::Array(a) => {
            lemma_decoded_seq_wf(a, strict);
        },
        CborV::Dict(d) => {
            lemma_decoded_pairs_wf(d, strict);
        },
        CborV::Tag(t, b) => {
            law_decoded_maps_in_key_order(*b, strict);
        },
        _ => {},
    }
}

proof fn lemma_decoded_seq_wf(s: Seq<CborV>, strict: bool)
    ensures
        cbor_seq_to_ipld(s, strict) matches Ok(l) ==> forall|i: int| 0 <= i < l.len() ==> ipld_wf(#[trigger] l[i]),
    decreases s,
{
    if s.len() > 0 {
        lemma_decoded_seq_wf(s.drop_last(), strict);
        law_decoded_maps_in_key_order(s.last(), strict);
        if let Ok(l) = cbor_seq_to_ipld(s, strict) {
            let prev = cbor_seq_to_ipld(s.drop_last(), strict)->Ok_0;
            assert forall|i: int| 0 <= i < l.len() implies ipld_wf(#[trigger] l[i]) by {
                if i < prev.len() {
                    assert(l[i] == prev[i]);
                }
            }
        }
    }
}

proof fn lemma_decoded_pairs_wf(d: Seq<(CborV, CborV)>, strict: bool)
    ensures
        cbor_pairs_to_ipld(d, strict) matches Ok(m) ==> sorted_by(m, key_order()) && forall|i: int|
            0 <= i < m.len() ==> ipld_wf(#[trigger] m[i].1),
    decreases d,
{
    if d.len() > 0 {
        lemma_key_order_strict_total();
        lemma_decoded_pairs_wf(d.drop_last(), strict);
        law_decoded_maps_in_key_order(d.last().1, strict);
        if let Ok(m) = cbor_pairs_to_ipld(d, strict) {
            let prev = cbor_pairs_to_ipld(d.drop_last(), strict)->Ok_0;
            let k = cbor_key(d.last().0)->Some_0;
            let x = cbor_to_ipld(d.last().1, strict)->Ok_0;
            assert(m == assoc_insert(prev, k, x, key_order()));
            lemma_assoc_insert_sorted(prev, k, x, key_order());
            assert forall|i: int| 0 <= i < m.len() implies ipld_wf(#[trigger] m[i].1) by {
                assert(m.contains(m[i]));
                if m[i] != (k, x) {
                    let j = choose|j: int| 0 <= j < prev.len() && prev[j] == m[i];
                }
            }
        }
    }
}

/// Every value converted from a CBOR item whose integers fit CBOR can be
/// encoded again.
proof fn lemma_decoded_encodable(v: CborV, strict: bool)
    requires
        cbor_ints_fit(v),
    ensures
        cbor_to_ipld(v, strict) matches Ok(x) ==> dag_cbor_encodable(x),
    decreases v,
{
    match v {
        CborV::Array(a) => {
            lemma_seq_ints_fit_each(a);
            lemma_decoded_seq_encodable(a, strict);
            if let Ok(x) = cbor_to_ipld(v, strict) {
                let l = cbor_seq_to_ipld(a, strict)->Ok_0;
                assert(x == IpldV::List(l));
                lemma_ipld_seq_to_cbor(l);
                lemma_seq_ints_fit_all(ipld_seq_to_cbor(l));
            }
        },
        CborV::Dict(d) => {
            lemma_pairs_ints_fit_each(d);
            assert forall|j: int| 0 <= j < d.len() implies cbor_ints_fit(#[trigger] d[j].1) by {
                assert(cbor_ints_fit(d[j].0));
            }
            lemma_decoded_pairs_encodable(d, strict);
            if let Ok(x) = cbor_to_ipld(v, strict) {
                let m = cbor_pairs_to_ipld(d, strict)->Ok_0;
                assert(x == IpldV::Dict(m));
                lemma_ipld_entries_to_cbor(m);
                lemma_pairs_ints_fit_all(ipld_entries_to_cbor(m));
            }
        },
        CborV::Tag(t, b) => {
            lemma_decoded_encodable(*b, strict);
            if let Ok(x) = cbor_to_ipld(v, strict) {
                if let IpldV::Link(l) = x {
                    assert(ipld_to_cbor(x) == CborV::Tag(CID_TAG, Box::new(CborV::Bytes(l))));
                    assert(cbor_ints_fit(CborV::Bytes(l)));
                }
            }
        },
        _ => {},
    }
}

proof fn lemma_decoded_seq_encodable(s: Seq<CborV>, strict: bool)
    requires
        forall|j: int| 0 <= j < s.len() ==> cbor_ints_fit(#[trigger] s[j]),
    ensures
        cbor_seq_to_ipld(s, strict) matches Ok(l) ==> forall|i: int| 0 <= i < l.len() ==> dag_cbor_encodable(#[trigger] l[i]),
    decreases s,
{
    if s.len() > 0 {
        assert forall|j: int| 0 <= j < s.len() - 1 implies cbor_ints_fit(#[trigger] s.drop_last()[j]) by {
            assert(s.drop_last()[j] == s[j]);
        }
        lemma_decoded_seq_encodable(s.drop_last(), strict);
        assert(cbor_ints_fit(s[s.len() - 1]));
        lemma_decoded_encodable(s.last(), strict);
        if let Ok(l) = cbor_seq_to_ipld(s, strict) {
            let prev = cbor_seq_to_ipld(s.drop_last(), strict)->Ok_0;
            assert forall|i: int| 0 <= i < l.len() implies dag_cbor_encodable(#[trigger] l[i]) by {
                if i < prev.len() {
                    assert(l[i] == prev[i]);
                }
            }
        }
    }
}

proof fn lemma_decoded_pairs_encodable(d: Seq<(CborV, CborV)>, strict: bool)
    requires
        forall|j: int| 0 <= j < d.len() ==> cbor_ints_fit(#[trigger] d[j].1),
    ensures
        cbor_pairs_to_ipld(d, strict) matches Ok(m) ==> forall|i: int|
            0 <= i < m.len() ==> dag_cbor_encodable(#[trigger] m[i].1),
    decreases d,
{
    if d.len() > 0 {
        assert forall|j: int| 0 <= j < d.len() - 1 implies cbor_ints_fit(#[trigger] d.drop_last()[j].1) by {
            assert(d.drop_last()[j] == d[j]);
        }
        lemma_decoded_pairs_encodable(d.drop_last(), strict);
        assert(cbor_ints_fit(d[d.len() - 1].1));
        lemma_decoded_encodable(d.last().1, strict);
        if let Ok(m) = cbor_pairs_to_ipld(d, strict) {
            let prev = cbor_pairs_to_ipld(d.drop_last(), strict)->Ok_0;
            let k = cbor_key(d.last().0)->Some_0;
            let x = cbor_to_ipld(d.last().1, strict)->Ok_0;
            assert(m == assoc_insert(prev, k, x, key_order()));
            lemma_key_order_strict_total();
            lemma_decoded_pairs_wf(d.drop_last(), strict);
            lemma_assoc_insert_sorted(prev, k, x, key_order());
            assert forall|i: int| 0 <= i < m.len() implies dag_cbor_encodable(#[trigger] m[i].1) by {
                assert(m.contains(m[i]));
                if m[i] != (k, x) {
                    let j = choose|j: int| 0 <= j < prev.len() && prev[j] == m[i];
                }
            }
        }
    }
}

/// A sequence whose items each fit, fits.
proof fn lemma_seq_ints_fit_all(s: Seq<CborV>)
    requires
        forall|j: int| 0 <= j < s.len() ==> cbor_ints_fit(#[trigger] s[j]),
    ensures
        cbor_seq_ints_fit(s),
    decreases s.len(),
{
    if s.len() > 0 {
        assert forall|j: int| 0 <= j < s.len() - 1 implies cbor_ints_fit(#[trigger] s.drop_last()[j]) by {
            assert(s.drop_last()[j] == s[j]);
        }
        lemma_seq_ints_fit_all(s.drop_last());
        assert(cbor_ints_fit(s[s.len() - 1]));
    }
}

/// A list of text-keyed entries whose values each fit, fits.
proof fn lemma_pairs_ints_fit_all(s: Seq<(CborV, CborV)>)
    requires
        forall|j: int| 0 <= j < s.len() ==> (#[trigger] s[j].0 is Text) && cbor_ints_fit(s[j].1),
    ensures
        cbor_pairs_ints_fit(s),
    decreases s.len(),
{
    if s.len() > 0 {
        assert forall|j: int| 0 <= j < s.len() - 1 implies (#[trigger] s.drop_last()[j].0 is Text) && cbor_ints_fit(s.drop_last()[j].1) by {
            assert(s.drop_last()[j] == s[j]);
        }
        lemma_pairs_ints_fit_all(s.drop_last());
        assert(s[s.len() - 1].0 is Text);
        assert(cbor_ints_fit(s[s.len() - 1].1));
        assert(cbor_ints_fit(s.last().0));
    }
}

/// A float is written as the CBOR float that `serde_cbor` writes for the
/// same bit pattern, and a CBOR float is read back as the float with its bit
/// pattern, in either mode.
pub proof fn law_float_kept_bit_for_bit(f: u64, strict: bool)
    ensures
        dag_cbor_bytes(IpldV::Float(f)) == cbor_float_bytes(f),
        cbor_to_ipld(CborV::Float(f), strict) == Ok::<IpldV, DecodeError>(IpldV::Float(f)),
{
}

/// A link is written as tag 42 (the bytes 0xd8 0x2a) over the byte string of
/// the link's bytes.
pub proof fn law_link_written_under_tag_42(l: Seq<u8>)
    ensures
        dag_cbor_bytes(IpldV::Link(l)) == seq![0xd8u8, 0x2au8] + dag_cbor_bytes(IpldV::Bytes(l)),
        dag_cbor_bytes(IpldV::Bytes(l)) == cbor_head(2, l.len()) + l,
{
    assert(be_bytes(42, 1) =~= seq![0x2au8]) by {
        assert(be_bytes(0, 0) =~= Seq::<u8>::empty());
    }
    assert(cbor_head(6, 42) =~= seq![0xd8u8, 0x2au8]);
    assert(ipld_to_cbor(IpldV::Link(l)) == CborV::Tag(CID_TAG, Box::new(CborV::Bytes(l))));
}

/// Strict decoding refuses every tag other than 42, whatever it marks.
pub proof fn law_strict_refuses_other_tags(t: u64, v: CborV)
    requires
        t != CID_TAG,
    ensures
        cbor_to_ipld(CborV::Tag(t, Box::new(v)), true) == Err::<IpldV, DecodeError>(DecodeError::UnexpectedTag(t)),
{
}

/// Decoding without strictness reads a tag other than 42 as the item it
/// marks, whatever the tag's number.
pub proof fn law_lenient_looks_through_other_tags(t: u64, v: CborV)
    requires
        t != CID_TAG,
    ensures
        cbor_to_ipld(CborV::Tag(t, Box::new(v)), false) == cbor_to_ipld(v, false),
{
}

/// What strict decoding accepts, decoding without strictness accepts too, and
/// gives the same value.
pub proof fn law_strict_result_kept_by_lenient(v: CborV)
    ensures
        cbor_to_ipld(v, true) matches Ok(x) ==> cbor_to_ipld(v, false) == Ok::<IpldV, DecodeError>(x),
    decreases v,
{
    match v {
        CborV::Array(a) => {
            lemma_strict_seq_kept(a);
        },
        CborV::Dict(d) => {
            lemma_strict_pairs_kept(d);
        },
        CborV::Tag(t, b) => {
            law_strict_result_kept_by_lenient(*b);
        },
        _ => {},
    }
}

proof fn lemma_strict_seq_kept(s: Seq<CborV>)
    ensures
        cbor_seq_to_ipld(s, true) matches Ok(l) ==> cbor_seq_to_ipld(s, false) == Ok::<Seq<IpldV>, DecodeError>(l),
    decreases s,
{
    if s.len() > 0 {
        lemma_strict_seq_kept(s.drop_last());
        law_strict_result_kept_by_lenient(s.last());
    }
}

proof fn lemma_strict_pairs_kept(d: Seq<(CborV, CborV)>)
    ensures
        cbor_pairs_to_ipld(d, true) matches Ok(m) ==> cbor_pairs_to_ipld(d, false) == Ok::<Seq<(Seq<char>, IpldV)>, DecodeError>(m),
    decreases d,
{
    if d.len() > 0 {
        lemma_strict_pairs_kept(d.drop_last());
        law_strict_result_kept_by_lenient(d.last().1);
    }
}

} // verus!
