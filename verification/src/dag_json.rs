//! DAG-JSON: IPLD values as JSON, with a link written as `{"/": <base64>}`.

use vstd::prelude::*;
use vstd::utf8::encode_utf8;
use crate::ipld::{ipld_seq_view, lemma_ipld_seq_view, Ipld, IpldV};

verus! {

/// Why an IPLD value could not be written as JSON: `serde_json` reported an
/// error. (For the values of this library it reports none.)
#[derive(Debug, PartialEq, Eq, Structural, Clone, Copy)]
pub enum EncodeError {
    Error,
}

/// The decimal digits of `n`.
pub open spec fn decimal_digits(n: nat) -> Seq<u8>
    decreases n,
{
    if n < 10 {
        seq![(48 + n) as u8]
    } else {
        decimal_digits(n / 10).push((48 + n % 10) as u8)
    }
}

/// An integer in decimal, with a minus sign when negative.
pub open spec fn json_int_bytes(i: int) -> Seq<u8> {
    if i < 0 {
        seq![45u8] + decimal_digits((-i) as nat)
    } else {
        decimal_digits(i as nat)
    }
}

/// A lower-case hexadecimal digit.
pub open spec fn hex_digit(n: u8) -> u8 {
    if n < 10 {
        (48 + n) as u8
    } else {
        (87 + n) as u8
    }
}

/// How a byte of a string's UTF-8 encoding is written inside a JSON string:
/// a quote, a backslash and the control characters are escaped.
pub open spec fn json_escape_byte(b: u8) -> Seq<u8> {
    if b == 0x22 {
        seq![0x5cu8, 0x22u8]
    } else if b == 0x5c {
        seq![0x5cu8, 0x5cu8]
    } else if b == 0x08 {
        seq![0x5cu8, 0x62u8]
    } else if b == 0x09 {
        seq![0x5cu8, 0x74u8]
    } else if b == 0x0a {
        seq![0x5cu8, 0x6eu8]
    } else if b == 0x0c {
        seq![0x5cu8, 0x66u8]
    } else if b == 0x0d {
        seq![0x5cu8, 0x72u8]
    } else if b < 0x20 {
        seq![0x5cu8, 0x75u8, 0x30u8, 0x30u8, hex_digit(b / 16), hex_digit(b % 16)]
    } else {
        seq![b]
    }
}

pub open spec fn json_escape(bs: Seq<u8>) -> Seq<u8>
    decreases bs.len(),
{
    if bs.len() == 0 {
        seq![]
    } else {
        json_escape(bs.drop_last()) + json_escape_byte(bs.last())
    }
}

/// A JSON string literal.
pub open spec fn json_string(s: Seq<char>) -> Seq<u8> {
    seq![0x22u8] + json_escape(encode_utf8(s)) + seq![0x22u8]
}

/// `null`
pub open spec fn json_null() -> Seq<u8> {
    seq![0x6eu8, 0x75u8, 0x6cu8, 0x6cu8]
}

/// `true` or `false`
pub open spec fn json_bool(b: bool) -> Seq<u8> {
    if b {
        seq![0x74u8, 0x72u8, 0x75u8, 0x65u8]
    } else {
        seq![0x66u8, 0x61u8, 0x6cu8, 0x73u8, 0x65u8]
    }
}

/// The bit pattern is that of a finite number.
pub open spec fn float_is_finite(bits: u64) -> bool {
    (bits / 0x10_0000_0000_0000) % 0x800 != 0x7ff
}

/// What `serde_json` writes for the finite binary64 number with bit pattern
/// `bits` (its shortest decimal form).
pub uninterp spec fn json_finite_float_bytes(bits: u64) -> Seq<u8>;

/// A number: `null` when it is not finite.
pub open spec fn json_float(bits: u64) -> Seq<u8> {
    if float_is_finite(bits) {
        json_finite_float_bytes(bits)
    } else {
        json_null()
    }
}

/// The bytes as numbers, separated by commas.
pub open spec fn json_byte_items(bs: Seq<u8>) -> Seq<u8>
    decreases bs.len(),
{
    if bs.len() == 0 {
        seq![]
    } else if bs.len() == 1 {
        decimal_digits(bs[0] as nat)
    } else {
        json_byte_items(bs.drop_last()) + seq![0x2cu8] + decimal_digits(bs.last() as nat)
    }
}

/// A byte string, written as an array of numbers.
pub open spec fn json_byte_array(bs: Seq<u8>) -> Seq<u8> {
    seq![0x5bu8] + json_byte_items(bs) + seq![0x5du8]
}

/// The base64 digit for a value below 64.
pub open spec fn base64_digit(v: int) -> char {
    if v < 26 {
        (65 + v) as char
    } else if v < 52 {
        (97 + v - 26) as char
    } else if v < 62 {
        (48 + v - 52) as char
    } else if v == 62 {
        '+'
    } else {
        '/'
    }
}

/// Standard base64 with padding: each group of three bytes becomes four
/// digits; a last group of one or two bytes is padded with `=`.
pub open spec fn base64_chars(b: Seq<u8>) -> Seq<char>
    decreases b.len(),
{
    let b0 = if b.len() > 0 { b[0] as int } else { 0 };
    let b1 = if b.len() > 1 { b[1] as int } else { 0 };
    let b2 = if b.len() > 2 { b[2] as int } else { 0 };
    if b.len() == 0 {
        seq![]
    } else if b.len() == 1 {
        seq![base64_digit(b0 / 4), base64_digit((b0 % 4) * 16), '=', '=']
    } else if b.len() == 2 {
        seq![
            base64_digit(b0 / 4),
            base64_digit((b0 % 4) * 16 + b1 / 16),
            base64_digit((b1 % 16) * 4),
            '=',
        ]
    } else {
        seq![
            base64_digit(b0 / 4),
            base64_digit((b0 % 4) * 16 + b1 / 16),
            base64_digit((b1 % 16) * 4 + b2 / 64),
            base64_digit(b2 % 64),
        ] + base64_chars(b.subrange(3, b.len() as int))
    }
}

/// A link: `{"/":"<base64 of the bytes>"}`.
pub open spec fn json_link(l: Seq<u8>) -> Seq<u8> {
    seq![0x7bu8] + json_string(seq!['/']) + seq![0x3au8] + json_string(base64_chars(l)) + seq![0x7du8]
}

/// The DAG-JSON text of an IPLD value, without spaces.
pub open spec fn dag_json_bytes(x: IpldV) -> Seq<u8>
    decreases x,
{
    match x {
        IpldV::Null => json_null(),
        IpldV::Bool(b) => json_bool(b),
        IpldV::Integer(i) => json_int_bytes(i),
        IpldV::Float(f) => json_float(f),
        IpldV::String(s) => json_string(s),
        IpldV::Bytes(b) => json_byte_array(b),
        IpldV::List(l) => seq![0x5bu8] + json_items(l) + seq![0x5du8],
        IpldV::Dict(d) => seq![0x7bu8] + json_entries(d) + seq![0x7du8],
        IpldV::Link(l) => json_link(l),
    }
}

/// The items, separated by commas.
pub open spec fn json_items(s: Seq<IpldV>) -> Seq<u8>
    decreases s,
{
    if s.len() == 0 {
        seq![]
    } else if s.len() == 1 {
        dag_json_bytes(s[0])
    } else {
        json_items(s.drop_last()) + seq![0x2cu8] + dag_json_bytes(s.last())
    }
}

/// `"key":value` for each entry, separated by commas.
pub open spec fn json_entries(s: Seq<(Seq<char>, IpldV)>) -> Seq<u8>
    decreases s,
{
    if s.len() == 0 {
        seq![]
    } else if s.len() == 1 {
        json_string(s[0].0) + seq![0x3au8] + dag_json_bytes(s[0].1)
    } else {
        json_entries(s.drop_last()) + seq![0x2cu8] + json_string(s.last().0) + seq![0x3au8]
            + dag_json_bytes(s.last().1)
    }
}

/// The largest byte string that `base64::encode` takes: beyond it, computing
/// the output's size overflows and it panics.
pub open spec fn base64_input_fits(len: nat) -> bool {
    (len / 3) * 4 + 4 <= usize::MAX
}

/// Every link in the value is short enough for `base64::encode`.
pub open spec fn json_links_fit(x: IpldV) -> bool
    decreases x,
{
    match x {
        IpldV::List(l) => forall|i: int| 0 <= i < l.len() ==> json_links_fit(#[trigger] l[i]),
        IpldV::Dict(d) => forall|i: int| 0 <= i < d.len() ==> json_links_fit(#[trigger] d[i].1),
        IpldV::Link(b) => base64_input_fits(b.len()),
        _ => true,
    }
}

// ---------------------------------------------------------------------------
// Calls into serde_json and base64.

/// The error type of `serde_json`.
#[verifier::external_type_specification]
#[verifier::external_body]
pub struct ExJsonError(serde_json::Error);

/// `serde_json::to_vec` of `None`, which serializes it with `serialize_none`:
/// `null`. Its documentation says that it fails only when the value's
/// `Serialize` decides to or when a map has a key that is not a string;
/// neither can happen here, nor for the other calls below.
#[verifier::external_body]
fn json_of_none() -> (r: Result<Vec<u8>, serde_json::Error>)
    ensures
        r is Ok,
        r.unwrap()@ == json_null(),
{
    serde_json::to_vec(&None::<()>)
}

/// `serde_json::to_vec` of a `bool`: `true` or `false`.
#[verifier::external_body]
fn json_of_bool(b: bool) -> (r: Result<Vec<u8>, serde_json::Error>)
    ensures
        r is Ok,
        r.unwrap()@ == json_bool(b),
{
    serde_json::to_vec(&b)
}

/// `serde_json::to_vec` of an `i128` (`serialize_i128`, through `itoa`): the
/// number in decimal.
#[verifier::external_body]
fn json_of_integer(i: i128) -> (r: Result<Vec<u8>, serde_json::Error>)
    ensures
        r is Ok,
        r.unwrap()@ == json_int_bytes(i as int),
{
    serde_json::to_vec(&i)
}

/// `serde_json::to_vec` of a `serde_cbor::Value::Float` (`serialize_f64`):
/// `null` for a NaN or an infinity, otherwise what `serde_json` writes for the
/// number, named `json_finite_float_bytes`. The number is first read by
/// `serde_cbor::from_slice` from its 9-byte CBOR double precision encoding,
/// which always succeeds.
#[verifier::external_body]
fn json_of_float(bits: u64) -> (r: Result<Vec<u8>, serde_json::Error>)
    ensures
        r is Ok,
        r.unwrap()@ == if float_is_finite(bits) {
            json_finite_float_bytes(bits)
        } else {
            json_null()
        },
{
    let b = bits.to_be_bytes();
    let item = [0xfb, b[0], b[1], b[2], b[3], b[4], b[5], b[6], b[7]];
    match serde_cbor::from_slice::<serde_cbor::Value>(&item) {
        Ok(number) => serde_json::to_vec(&number),
        Err(_) => Ok(Vec::new()),
    }
}

/// `serde_json::to_vec` of a `str` (`serialize_str`): the string in quotes,
/// with `"`, `\` and the control characters escaped.
#[verifier::external_body]
fn json_of_str(s: &str) -> (r: Result<Vec<u8>, serde_json::Error>)
    ensures
        r is Ok,
        r.unwrap()@ == json_string(s@),
{
    serde_json::to_vec(s)
}

/// `serde_json::to_vec` of `serde_bytes::Bytes` (`serialize_bytes`): the
/// bytes as an array of numbers.
#[verifier::external_body]
fn json_of_bytes(b: &[u8]) -> (r: Result<Vec<u8>, serde_json::Error>)
    ensures
        r is Ok,
        r.unwrap()@ == json_byte_array(b@),
{
    serde_json::to_vec(serde_bytes::Bytes::new(b))
}

/// `base64::encode`: standard base64 with padding. It panics when the
/// output's size overflows a `usize`, which `requires` leaves out.
#[verifier::external_body]
fn base64_encode(b: &[u8]) -> (r: String)
    requires
        base64_input_fits(b@.len()),
    ensures
        r@ == base64_chars(b@),
{
    base64::encode(b)
}

proof fn lemma_links_fit_list(x: IpldV, i: int)
    requires
        x is List,
        json_links_fit(x),
        0 <= i < x->List_0.len(),
    ensures
        json_links_fit(x->List_0[i]),
{
}

proof fn lemma_links_fit_dict(x: IpldV, i: int)
    requires
        x is Dict,
        json_links_fit(x),
        0 <= i < x->Dict_0.len(),
    ensures
        json_links_fit(x->Dict_0[i].1),
{
}

/// Appends what `serde_json` wrote, or maps its error to the library's.
fn append_json(out: &mut Vec<u8>, r: Result<Vec<u8>, serde_json::Error>) -> (q: Result<(), EncodeError>)
    ensures
        r is Ok ==> q is Ok && final(out)@ == old(out)@ + r.unwrap()@,
        r is Err ==> q == Err::<(), EncodeError>(EncodeError::Error),
{
    match r {
        Ok(mut bytes) => {
            out.append(&mut bytes);
            Ok(())
        },
        Err(_) => Err(EncodeError::Error),
    }
}

/// Encodes an IPLD value as DAG-JSON text (UTF-8 bytes, no spaces, map keys
/// in increasing order).
pub fn encode(ipld: &Ipld) -> (r: Result<Vec<u8>, EncodeError>)
    requires
        json_links_fit(ipld@),
    ensures
        r is Ok,
        r.unwrap()@ == dag_json_bytes(ipld@),
{
    let mut out: Vec<u8> = Vec::with_capacity(128);
    match write_json(ipld, &mut out) {
        Ok(()) => {
            assert(out@ =~= dag_json_bytes(ipld@));
            Ok(out)
        },
        Err(e) => Err(e),
    }
}

/// Appends the DAG-JSON text of `x` to `out`.
fn write_json(x: &Ipld, out: &mut Vec<u8>) -> (r: Result<(), EncodeError>)
    requires
        json_links_fit(x@),
    ensures
        r is Ok,
        final(out)@ == old(out)@ + dag_json_bytes(x@),
    decreases x@,
{
    match x {
        Ipld::Null => append_json(out, json_of_none()),
        Ipld::Bool(b) => append_json(out, json_of_bool(*b)),
        Ipld::Integer(i) => append_json(out, json_of_integer(*i)),
        Ipld::Float(f) => append_json(out, json_of_float(*f)),
        Ipld::String(s) => append_json(out, json_of_str(s.as_str())),
        Ipld::Bytes(b) => append_json(out, json_of_bytes(b.as_slice())),
        Ipld::Link(l) => {
            let ghost start = old(out)@;
            let encoded = base64_encode(l.as_slice());
            out.push(0x7bu8);
            let slash = "/";
            proof {
                reveal_strlit("/");
                assert(slash@ =~= seq!['/']);
            }
            append_json(out, json_of_str(slash))?;
            out.push(0x3au8);
            append_json(out, json_of_str(encoded.as_str()))?;
            out.push(0x7du8);
            assert(out@ =~= start + json_link(l@));
            Ok(())
        },
        Ipld::List(l) => {
            let ghost start = old(out)@;
            let ghost sv = ipld_seq_view(l@);
            proof {
                lemma_ipld_seq_view(l@);
                assert(x@ == IpldV::List(sv));
                assert(sv.take(0) =~= Seq::<IpldV>::empty());
                assert forall|j: int| 0 <= j < l@.len() implies decreases_to!(x@ => #[trigger] l@[j]@) by {
                    vstd::seq::axiom_seq_index_decreases(sv, j);
                    let xv = x@;
                    assert(decreases_to!(xv => xv->List_0));
                    assert(decreases_to!(sv => sv[j]));
                }
            }
            out.push(0x5bu8);
            let mut i: usize = 0;
            while i < l.len()
                invariant
                    i <= l.len(),
                    sv.len() == l@.len(),
                    x@ == IpldV::List(sv),
                    json_links_fit(x@),
                    forall|j: int| 0 <= j < l@.len() ==> #[trigger] sv[j] == l@[j]@,
                    forall|j: int| 0 <= j < l@.len() ==> decreases_to!(x@ => #[trigger] l@[j]@),
                    out@ == start + seq![0x5bu8] + json_items(sv.take(i as int)),
                decreases l.len() - i,
            {
                if i > 0 {
                    out.push(0x2cu8);
                }
                proof {
                    lemma_links_fit_list(x@, i as int);
                }
                let ghost before = out@;
                write_json(&l[i], out)?;
                proof {
                    let t = sv.take(i + 1);
                    assert(t.drop_last() =~= sv.take(i as int));
                    assert(t.last() == sv[i as int]);
                    if i == 0 {
                        assert(t[0] == sv[0]);
                        assert(sv.take(0) =~= Seq::<IpldV>::empty());
                    }
                }
                i += 1;
            }
            out.push(0x5du8);
            proof {
                assert(sv.take(l@.len() as int) =~= sv);
            }
            assert(out@ =~= start + dag_json_bytes(x@));
            Ok(())
        },
        Ipld::Dict(m) => {
            let ghost start = old(out)@;
            let ghost es = m@;
            proof {
                assert(x@ == IpldV::Dict(es));
                assert(es.take(0) =~= Seq::<(Seq<char>, IpldV)>::empty());
                assert forall|j: int| 0 <= j < es.len() implies decreases_to!(x@ => #[trigger] es[j].1) by {
                    vstd::seq::axiom_seq_index_decreases(es, j);
                    let xv = x@;
                    let e = es[j];
                    assert(decreases_to!(xv => xv->Dict_0));
                    assert(decreases_to!(es => es[j]));
                    assert(decreases_to!(e => e.1));
                }
            }
            out.push(0x7bu8);
            let n = m.len();
            let mut i: usize = 0;
            while i < n
                invariant
                    n == es.len(),
                    i <= n,
                    es == m@,
                    x@ == IpldV::Dict(es),
                    json_links_fit(x@),
                    forall|j: int| 0 <= j < es.len() ==> decreases_to!(x@ => #[trigger] es[j].1),
                    out@ == start + seq![0x7bu8] + json_entries(es.take(i as int)),
                decreases n - i,
            {
                if i > 0 {
                    out.push(0x2cu8);
                }
                let (k, v) = m.entry(i);
                assert(v@ == es[i as int].1);
                proof {
                    lemma_links_fit_dict(x@, i as int);
                }
                append_json(out, json_of_str(k.as_str()))?;
                out.push(0x3au8);
                write_json(v, out)?;
                proof {
                    let t = es.take(i + 1);
                    assert(t.drop_last() =~= es.take(i as int));
                    assert(t.last() == es[i as int]);
                    if i == 0 {
                        assert(t[0] == es[0]);
                        assert(es.take(0) =~= Seq::<(Seq<char>, IpldV)>::empty());
                    }
                }
                i += 1;
            }
            out.push(0x7du8);
            proof {
                assert(es.take(n as int) =~= es);
            }
            assert(out@ =~= start + dag_json_bytes(x@));
            Ok(())
        },
    }
}

/// The parts, separated by commas.
pub open spec fn json_join(parts: Seq<Seq<u8>>) -> Seq<u8>
    decreases parts.len(),
{
    if parts.len() == 0 {
        seq![]
    } else if parts.len() == 1 {
        parts[0]
    } else {
        json_join(parts.drop_last()) + seq![0x2cu8] + parts.last()
    }
}

/// The text of one entry of a map, written on its own: the key as a string,
/// a colon, and the value.
pub open spec fn json_entry_text(e: (Seq<char>, IpldV)) -> Seq<u8> {
    dag_json_bytes(IpldV::String(e.0)) + seq![0x3au8] + dag_json_bytes(e.1)
}

/// A link is written exactly as the map whose one key is `/` and whose value
/// is the string of the link's bytes in base64.
pub proof fn law_link_written_as_slash_map(l: Seq<u8>)
    ensures
        dag_json_bytes(IpldV::Link(l)) == dag_json_bytes(
            IpldV::Dict(seq![(seq!['/'], IpldV::String(base64_chars(l)))]),
        ),
{
    let d = seq![(seq!['/'], IpldV::String(base64_chars(l)))];
    assert(d.len() == 1);
    assert(d[0].0 == seq!['/']);
    assert(d[0].1 == IpldV::String(base64_chars(l)));
    assert(dag_json_bytes(d[0].1) == json_string(base64_chars(l)));
    assert(json_entries(d) == json_string(seq!['/']) + seq![0x3au8] + json_string(base64_chars(l)));
    assert(dag_json_bytes(IpldV::Dict(d)) =~= dag_json_bytes(IpldV::Link(l)));
}

/// The text of a list is `[`, the texts of its items each written on its
/// own, separated by commas, and `]`; that of a map is `{`, the texts of its
/// entries in key order, separated by commas, and `}`.
pub proof fn law_containers_written_from_parts(x: IpldV)
    ensures
        x matches IpldV::List(l) ==> dag_json_bytes(x) == seq![0x5bu8] + json_join(
            l.map_values(|y: IpldV| dag_json_bytes(y)),
        ) + seq![0x5du8],
        x matches IpldV::Dict(d) ==> dag_json_bytes(x) == seq![0x7bu8] + json_join(
            d.map_values(|e: (Seq<char>, IpldV)| json_entry_text(e)),
        ) + seq![0x7du8],
{
    match x {
        IpldV::List(l) => lemma_items_join(l),
        IpldV::Dict(d) => lemma_entries_join(d),
        _ => {},
    }
}

proof fn lemma_items_join(s: Seq<IpldV>)
    ensures
        json_items(s) == json_join(s.map_values(|y: IpldV| dag_json_bytes(y))),
    decreases s.len(),
{
    let f = |y: IpldV| dag_json_bytes(y);
    if s.len() > 1 {
        lemma_items_join(s.drop_last());
        assert(s.drop_last().map_values(f) =~= s.map_values(f).drop_last());
    }
}

proof fn lemma_entries_join(s: Seq<(Seq<char>, IpldV)>)
    ensures
        json_entries(s) == json_join(s.map_values(|e: (Seq<char>, IpldV)| json_entry_text(e))),
    decreases s.len(),
{
    let f = |e: (Seq<char>, IpldV)| json_entry_text(e);
    if s.len() > 1 {
        lemma_entries_join(s.drop_last());
        assert(s.drop_last().map_values(f) =~= s.map_values(f).drop_last());
        assert(json_entries(s) =~= json_entries(s.drop_last()) + seq![0x2cu8] + json_entry_text(s.last()));
    } else if s.len() == 1 {
        assert(json_entries(s) =~= json_entry_text(s[0]));
    }
}

/// The number that a run of decimal digits stands for, read from the left.
pub open spec fn decimal_value(s: Seq<u8>) -> int
    decreases s.len(),
{
    if s.len() == 0 {
        0
    } else {
        decimal_value(s.drop_last()) * 10 + (s.last() - 48)
    }
}

/// A decimal numeral: one or more digits, with no leading zero unless it is
/// the numeral `0` itself.
pub open spec fn is_decimal_numeral(s: Seq<u8>) -> bool {
    &&& s.len() > 0
    &&& forall|j: int| 0 <= j < s.len() ==> 48 <= #[trigger] s[j] <= 57
    &&& (s.len() > 1 ==> s[0] != 48)
}

/// An integer is written in decimal: a numeral whose value is the integer
/// when it is not negative, and otherwise a minus sign followed by a numeral
/// whose value is the integer's magnitude.
pub proof fn law_integer_written_in_decimal(i: int)
    ensures
        i >= 0 ==> is_decimal_numeral(dag_json_bytes(IpldV::Integer(i)))
            && decimal_value(dag_json_bytes(IpldV::Integer(i))) == i,
        i < 0 ==> dag_json_bytes(IpldV::Integer(i))[0] == 0x2du8
            && is_decimal_numeral(dag_json_bytes(IpldV::Integer(i)).drop_first())
            && decimal_value(dag_json_bytes(IpldV::Integer(i)).drop_first()) == -i,
{
    if i >= 0 {
        lemma_decimal_digits(i as nat);
    } else {
        lemma_decimal_digits((-i) as nat);
        let t = dag_json_bytes(IpldV::Integer(i));
        assert(t == seq![0x2du8] + decimal_digits((-i) as nat));
        assert(t.drop_first() =~= decimal_digits((-i) as nat));
    }
}

proof fn lemma_decimal_digits(n: nat)
    ensures
        is_decimal_numeral(decimal_digits(n)),
        decimal_value(decimal_digits(n)) == n,
    decreases n,
{
    let d = decimal_digits(n);
    if n < 10 {
        assert(d.drop_last() =~= Seq::<u8>::empty());
        assert(decimal_value(d.drop_last()) == 0);
    } else {
        let p = decimal_digits(n / 10);
        lemma_decimal_digits(n / 10);
        assert(d == p.push((48 + n % 10) as u8));
        assert(d.drop_last() =~= p);
        assert(decimal_value(d) == (n / 10) * 10 + n % 10);
        assert forall|j: int| 0 <= j < d.len() implies 48 <= #[trigger] d[j] <= 57 by {
            if j < p.len() {
                assert(d[j] == p[j]);
            }
        }
        if p.len() == 1 {
            assert(p.drop_last() =~= Seq::<u8>::empty());
            assert(decimal_value(p.drop_last()) == 0);
            assert(p.last() == p[0]);
            assert(decimal_value(p) == p[0] - 48);
        }
        assert(d[0] == p[0]);
    }
}

/// A byte string is written exactly as the list of its bytes, each as an
/// integer: an array of numbers, never a string.
pub proof fn law_bytes_written_as_list_of_integers(b: Seq<u8>)
    ensures
        dag_json_bytes(IpldV::Bytes(b)) == dag_json_bytes(
            IpldV::List(b.map_values(|x: u8| IpldV::Integer(x as int))),
        ),
        dag_json_bytes(IpldV::Bytes(b))[0] == 0x5bu8,
{
    lemma_byte_items(b);
}

proof fn lemma_byte_items(b: Seq<u8>)
    ensures
        json_byte_items(b) == json_items(b.map_values(|x: u8| IpldV::Integer(x as int))),
    decreases b.len(),
{
    let f = |x: u8| IpldV::Integer(x as int);
    let m = b.map_values(f);
    if b.len() > 1 {
        lemma_byte_items(b.drop_last());
        assert(b.drop_last().map_values(f) =~= m.drop_last());
        assert(m.last() == IpldV::Integer(b.last() as int));
        assert(dag_json_bytes(m.last()) == decimal_digits(b.last() as nat));
    } else if b.len() == 1 {
        assert(m[0] == IpldV::Integer(b[0] as int));
        assert(dag_json_bytes(m[0]) == decimal_digits(b[0] as nat));
    }
}

/// A number is written as `serde_json` writes it when finite, and as `null`
/// otherwise.
pub proof fn law_float_written_by_serde_json(f: u64)
    ensures
        float_is_finite(f) ==> dag_json_bytes(IpldV::Float(f)) == json_finite_float_bytes(f),
        !float_is_finite(f) ==> dag_json_bytes(IpldV::Float(f)) == dag_json_bytes(IpldV::Null),
{
}

} // verus!
