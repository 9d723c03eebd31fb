//! The IPLD data model: values, and maps whose keys are kept in order.

use vstd::prelude::*;
use crate::order::{
    assoc_get, assoc_insert, compare_bytes, has_key, key_lt, key_order, lemma_assoc_get_insert,
    lemma_assoc_insert_sorted, lemma_key_order_strict_total, lemma_sorted_unique, sorted_by,
    unique_keys, Cmp,
};

verus! {

/// The mathematical value that an [`Ipld`] stands for.
pub enum IpldV {
    Null,
    Bool(bool),
    Integer(int),
    /// The bit pattern of an IEEE 754 binary64 number.
    Float(u64),
    String(Seq<char>),
    Bytes(Seq<u8>),
    List(Seq<IpldV>),
    /// Entries in increasing key order.
    Dict(Seq<(Seq<char>, IpldV)>),
    Link(Seq<u8>),
}

/// An IPLD value.
#[derive(Debug, PartialEq)]
pub enum Ipld {
    /// Represents the absence of a value.
    Null,
    Bool(bool),
    Integer(i128),
    /// A floating point number, held as the bit pattern of an IEEE 754
    /// binary64 number.
    Float(u64),
    String(String),
    Bytes(Vec<u8>),
    List(Vec<Ipld>),
    Dict(IpldMap),
    /// A link to another IPLD block, held as the bytes of its CID.
    Link(Vec<u8>),
}

/// A map from strings to IPLD values, iterated in increasing key order (keys
/// compare by their UTF-8 bytes, as `String`s do).
#[derive(Debug, PartialEq)]
pub struct IpldMap {
    entries: Vec<(String, Ipld)>,
}

pub open spec fn ipld_view(x: Ipld) -> IpldV
    decreases x,
{
    match x {
        Ipld::Null => IpldV::Null,
        Ipld::Bool(b) => IpldV::Bool(b),
        Ipld::Integer(i) => IpldV::Integer(i as int),
        Ipld::Float(f) => IpldV::Float(f),
        Ipld::String(s) => IpldV::String(s@),
        Ipld::Bytes(b) => IpldV::Bytes(b@),
        Ipld::List(l) => IpldV::List(ipld_seq_view(l@)),
        Ipld::Dict(m) => IpldV::Dict(m.model()),
        Ipld::Link(l) => IpldV::Link(l@),
    }
}

pub open spec fn ipld_seq_view(s: Seq<Ipld>) -> Seq<IpldV>
    decreases s,
{
    if s.len() == 0 {
        seq![]
    } else {
        ipld_seq_view(s.drop_last()).push(ipld_view(s.last()))
    }
}

impl IpldMap {
    /// The entries, in order.
    pub closed spec fn model(self) -> Seq<(Seq<char>, IpldV)>
        decreases self,
    {
        entries_view(self.entries@)
    }
}

impl View for IpldMap {
    type V = Seq<(Seq<char>, IpldV)>;

    open spec fn view(&self) -> Seq<(Seq<char>, IpldV)> {
        self.model()
    }
}

impl View for Ipld {
    type V = IpldV;

    open spec fn view(&self) -> IpldV {
        ipld_view(*self)
    }
}

pub open spec fn entries_view(s: Seq<(String, Ipld)>) -> Seq<(Seq<char>, IpldV)>
    decreases s,
{
    if s.len() == 0 {
        seq![]
    } else {
        entries_view(s.drop_last()).push((s.last().0@, ipld_view(s.last().1)))
    }
}

/// Entry `i` of the view is the view of entry `i`.
pub proof fn lemma_entries_view(s: Seq<(String, Ipld)>)
    ensures
        entries_view(s).len() == s.len(),
        forall|i: int| 0 <= i < s.len() ==> #[trigger] entries_view(s)[i] == (s[i].0@, ipld_view(s[i].1)),
    decreases s.len(),
{
    if s.len() > 0 {
        lemma_entries_view(s.drop_last());
    }
}

/// Element `i` of the view is the view of element `i`.
pub proof fn lemma_ipld_seq_view(s: Seq<Ipld>)
    ensures
        ipld_seq_view(s).len() == s.len(),
        forall|i: int| 0 <= i < s.len() ==> #[trigger] ipld_seq_view(s)[i] == ipld_view(s[i]),
    decreases s.len(),
{
    if s.len() > 0 {
        lemma_ipld_seq_view(s.drop_last());
    }
}

/// The views of two lists of entries agree where the entries do.
proof fn lemma_entries_view_ext(a: Seq<(String, Ipld)>, b: Seq<(Seq<char>, IpldV)>)
    requires
        a.len() == b.len(),
        forall|i: int| 0 <= i < a.len() ==> (a[i].0@, ipld_view(a[i].1)) == #[trigger] b[i],
    ensures
        entries_view(a) == b,
{
    lemma_entries_view(a);
    assert(entries_view(a) =~= b);
}

impl IpldMap {
    #[verifier::type_invariant]
    closed spec fn keys_increase(self) -> bool {
        sorted_by(entries_view(self.entries@), key_order())
    }

    /// An empty map.
    pub fn new() -> (m: IpldMap)
        ensures
            m@ == Seq::<(Seq<char>, IpldV)>::empty(),
    {
        let m = IpldMap { entries: Vec::new() };
        assert(entries_view(m.entries@) =~= Seq::<(Seq<char>, IpldV)>::empty());
        m
    }

    /// The number of entries.
    pub fn len(&self) -> (n: usize)
        ensures
            n == self@.len(),
    {
        proof {
            lemma_entries_view(self.entries@);
        }
        self.entries.len()
    }

    /// The keys strictly increase.
    pub fn keys_in_order(&self) -> (b: bool)
        ensures
            b,
            sorted_by(self@, key_order()),
    {
        proof {
            use_type_invariant(self);
        }
        true
    }

    /// Entry `i` in key order.
    pub fn entry(&self, i: usize) -> (r: (&String, &Ipld))
        requires
            i < self@.len(),
        ensures
            (r.0@, r.1@) == self@[i as int],
    {
        proof {
            lemma_entries_view(self.entries@);
        }
        let e = &self.entries[i];
        (&e.0, &e.1)
    }

    /// The value stored under `key`, if any.
    pub fn get(&self, key: &str) -> (r: Option<&Ipld>)
        ensures
            match r {
                Some(v) => assoc_get(self@, key@) == Some(v@),
                None => assoc_get(self@, key@) is None,
            },
    {
        let ghost s = self@;
        proof {
            lemma_entries_view(self.entries@);
            assert(s.subrange(0, s.len() as int) =~= s);
        }
        let mut i: usize = 0;
        while i < self.entries.len()
            invariant
                s == self@,
                s == entries_view(self.entries@),
                s.len() == self.entries@.len(),
                forall|j: int| 0 <= j < s.len() ==> #[trigger] s[j] == (self.entries@[j].0@, ipld_view(self.entries@[j].1)),
                i <= s.len(),
                assoc_get(s, key@) == assoc_get(s.subrange(i as int, s.len() as int), key@),
            decreases self.entries.len() - i,
        {
            let e = &self.entries[i];
            assert(s[i as int] == (e.0@, e.1@));
            let ghost rest = s.subrange(i as int, s.len() as int);
            assert(rest.drop_first() =~= s.subrange(i + 1, s.len() as int));
            assert(rest[0] == s[i as int]);
            proof {
                vstd::utf8::encode_utf8_decode_utf8(e.0@);
                vstd::utf8::encode_utf8_decode_utf8(key@);
            }
            if compare_bytes(e.0.as_str().as_bytes(), key.as_bytes()) == Cmp::Equal {
                return Some(&e.1);
            }
            i += 1;
        }
        proof {
            assert(s.subrange(i as int, s.len() as int) =~= Seq::<(Seq<char>, IpldV)>::empty());
        }
        None
    }

    /// Stores `value` under `key`, giving back the value stored there before.
    pub fn insert(&mut self, key: String, value: Ipld) -> (r: Option<Ipld>)
        ensures
            final(self)@ == assoc_insert(old(self)@, key@, value@, key_order()),
            match r {
                Some(v) => assoc_get(old(self)@, key@) == Some(v@),
                None => assoc_get(old(self)@, key@) is None,
            },
    {
        proof {
            use_type_invariant(&*self);
            lemma_key_order_strict_total();
        }
        let ghost s = self@;
        let mut entries: Vec<(String, Ipld)> = Vec::new();
        std::mem::swap(&mut entries, &mut self.entries);
        proof {
            lemma_entries_view(entries@);
        }
        let mut i: usize = 0;
        while i < entries.len() && compare_bytes(entries[i].0.as_str().as_bytes(), key.as_str().as_bytes()) == Cmp::Less
            invariant
                s == entries_view(entries@),
                sorted_by(s, key_order()),
                s.len() == entries@.len(),
                forall|j: int| 0 <= j < s.len() ==> #[trigger] s[j] == (entries@[j].0@, ipld_view(entries@[j].1)),
                i <= s.len(),
                forall|j: int| 0 <= j < i ==> key_lt(#[trigger] s[j].0, key@),
            decreases entries.len() - i,
        {
            i += 1;
        }
        let found = i < entries.len() && compare_bytes(entries[i].0.as_str().as_bytes(), key.as_str().as_bytes()) == Cmp::Equal;
        proof {
            if i < entries.len() {
                vstd::utf8::encode_utf8_decode_utf8(entries@[i as int].0@);
                vstd::utf8::encode_utf8_decode_utf8(key@);
                assert(s[i as int].0 == entries@[i as int].0@);
            }
        }
        proof {
            lemma_assoc_insert_at(s, key@, value@, i as int);
            lemma_assoc_get_at(s, key@, i as int);
            lemma_assoc_insert_sorted(s, key@, value@, key_order());
        }
        let ghost new_view = assoc_insert(s, key@, value@, key_order());
        let ghost value_view = value@;
        let ghost key_view = key@;
        let r;
        if found {
            let old_entry = entries.remove(i);
            entries.insert(i, (key, value));
            r = Some(old_entry.1);
        } else {
            entries.insert(i, (key, value));
            r = None;
        }
        proof {
            lemma_entries_view(entries@);
            assert forall|j: int| 0 <= j < entries@.len() implies (entries@[j].0@, ipld_view(
                entries@[j].1,
            )) == #[trigger] new_view[j] by {}
            lemma_entries_view_ext(entries@, new_view);
        }
        self.entries = entries;
        r
    }
}

/// Where an insertion in an ordered list lands, once the first `i` keys are
/// known to be smaller and the next one is not.
proof fn lemma_assoc_insert_at(s: Seq<(Seq<char>, IpldV)>, k: Seq<char>, v: IpldV, i: int)
    requires
        0 <= i <= s.len(),
        forall|j: int| 0 <= j < i ==> key_lt(#[trigger] s[j].0, k),
        i == s.len() || !key_lt(s[i].0, k),
    ensures
        assoc_insert(s, k, v, key_order()) == if i < s.len() && s[i].0 == k {
            s.update(i, (k, v))
        } else {
            s.insert(i, (k, v))
        },
    decreases i,
{
    lemma_key_order_strict_total();
    if i == 0 {
        if s.len() > 0 && s[0].0 == k {
            assert(s.update(0, (k, v)) =~= seq![(k, v)] + s.drop_first());
        } else {
            assert(s.insert(0, (k, v)) =~= seq![(k, v)] + s);
        }
    } else {
        let t = s.drop_first();
        assert(key_lt(s[0].0, k));
        assert(s[0].0 != k) by {
            assert(!key_order()(k, k));
        }
        assert forall|j: int| 0 <= j < i - 1 implies key_lt(#[trigger] t[j].0, k) by {
            assert(t[j] == s[j + 1]);
        }
        lemma_assoc_insert_at(t, k, v, i - 1);
        if i < s.len() && s[i].0 == k {
            assert(s.update(i, (k, v)) =~= seq![s[0]] + t.update(i - 1, (k, v)));
        } else {
            assert(s.insert(i, (k, v)) =~= seq![s[0]] + t.insert(i - 1, (k, v)));
        }
    }
}

/// What is found under `k` in an ordered list, once the first `i` keys are
/// known to be smaller and the next one is not.
proof fn lemma_assoc_get_at(s: Seq<(Seq<char>, IpldV)>, k: Seq<char>, i: int)
    requires
        0 <= i <= s.len(),
        sorted_by(s, key_order()),
        forall|j: int| 0 <= j < i ==> key_lt(#[trigger] s[j].0, k),
        i == s.len() || !key_lt(s[i].0, k),
    ensures
        assoc_get(s, k) == if i < s.len() && s[i].0 == k {
            Some(s[i].1)
        } else {
            None::<IpldV>
        },
    decreases s.len(),
{
    lemma_key_order_strict_total();
    if s.len() > 0 {
        let t = s.drop_first();
        assert(sorted_by(t, key_order())) by {
            assert forall|a: int, b: int| 0 <= a < b < t.len() implies key_order()(#[trigger] t[a].0, #[trigger] t[b].0) by {
                assert(t[a] == s[a + 1]);
                assert(t[b] == s[b + 1]);
            }
        }
        if i == 0 {
            if s[0].0 != k {
                assert(key_order()(k, s[0].0) || key_order()(s[0].0, k));
                assert(key_lt(k, s[0].0));
                assert forall|j: int| 0 <= j < t.len() implies #[trigger] t[j].0 != k by {
                    assert(t[j] == s[j + 1]);
                    assert(key_order()(s[0].0, s[j + 1].0));
                    assert(!key_order()(k, k));
                    assert(key_order()(k, s[0].0));
                }
                lemma_assoc_get_absent(t, k);
            }
        } else {
            assert(key_lt(s[0].0, k));
            assert(s[0].0 != k) by {
                assert(!key_order()(k, k));
            }
            assert forall|j: int| 0 <= j < i - 1 implies key_lt(#[trigger] t[j].0, k) by {
                assert(t[j] == s[j + 1]);
            }
            lemma_assoc_get_at(t, k, i - 1);
        }
    }
}

/// Nothing is found under a key that no entry has.
pub proof fn lemma_assoc_get_absent<V>(s: Seq<(Seq<char>, V)>, k: Seq<char>)
    requires
        forall|j: int| 0 <= j < s.len() ==> #[trigger] s[j].0 != k,
    ensures
        assoc_get(s, k) is None,
    decreases s.len(),
{
    if s.len() > 0 {
        let t = s.drop_first();
        assert forall|j: int| 0 <= j < t.len() implies #[trigger] t[j].0 != k by {
            assert(t[j] == s[j + 1]);
        }
        lemma_assoc_get_absent(t, k);
    }
}

/// Every map in the value has its keys in increasing order, as the values of
/// `Ipld` do.
pub open spec fn ipld_wf(x: IpldV) -> bool
    decreases x,
{
    match x {
        IpldV::List(l) => forall|i: int| 0 <= i < l.len() ==> ipld_wf(#[trigger] l[i]),
        IpldV::Dict(d) => sorted_by(d, key_order()) && forall|i: int|
            0 <= i < d.len() ==> ipld_wf(#[trigger] d[i].1),
        _ => true,
    }
}

impl Ipld {
    /// Every map in the value, at any depth, has its keys in increasing
    /// order, as the type keeps them.
    pub fn maps_in_key_order(&self) -> (b: bool)
        ensures
            b,
            ipld_wf(self@),
        decreases self@,
    {
        match self {
            Ipld::List(l) => {
                proof {
                    lemma_ipld_seq_view(l@);
                    lemma_list_items_decrease(self@, l@);
                }
                let mut i: usize = 0;
                while i < l.len()
                    invariant
                        i <= l.len(),
                        self@ == IpldV::List(ipld_seq_view(l@)),
                        ipld_seq_view(l@).len() == l@.len(),
                        forall|j: int| 0 <= j < l@.len() ==> #[trigger] ipld_seq_view(l@)[j] == l@[j]@,
                        forall|j: int| 0 <= j < l@.len() ==> decreases_to!(self@ => #[trigger] l@[j]@),
                        forall|j: int| 0 <= j < i ==> ipld_wf(#[trigger] l@[j]@),
                    decreases l.len() - i,
                {
                    l[i].maps_in_key_order();
                    i += 1;
                }
                proof {
                    let sv = ipld_seq_view(l@);
                    assert forall|j: int| 0 <= j < sv.len() implies ipld_wf(#[trigger] sv[j]) by {
                        assert(sv[j] == l@[j]@);
                    }
                }
                true
            },
            Ipld::Dict(m) => {
                proof {
                    use_type_invariant(m);
                    lemma_entries_view(m.entries@);
                    lemma_dict_values_decrease(self@, m@);
                }
                let mut i: usize = 0;
                while i < m.entries.len()
                    invariant
                        i <= m.entries@.len(),
                        self@ == IpldV::Dict(m@),
                        m@ == entries_view(m.entries@),
                        m@.len() == m.entries@.len(),
                        forall|j: int| 0 <= j < m@.len() ==> #[trigger] m@[j] == (m.entries@[j].0@, m.entries@[j].1@),
                        forall|j: int| 0 <= j < m@.len() ==> decreases_to!(self@ => #[trigger] m@[j].1),
                        forall|j: int| 0 <= j < i ==> ipld_wf(#[trigger] m@[j].1),
                    decreases m.entries.len() - i,
                {
                    assert(m@[i as int].1 == m.entries@[i as int].1@);
                    m.entries[i].1.maps_in_key_order();
                    i += 1;
                }
                true
            },
            _ => true,
        }
    }
}

impl Clone for Ipld {
    fn clone(&self) -> (r: Self)
        ensures
            r@ == self@,
    {
        copy_ipld(self)
    }
}

impl Clone for IpldMap {
    fn clone(&self) -> (r: Self)
        ensures
            r@ == self@,
    {
        copy_map(self)
    }
}

/// A copy of the value.
fn copy_ipld(x: &Ipld) -> (r: Ipld)
    ensures
        r@ == x@,
    decreases x@, 1int,
{
    match x {
        Ipld::Null => Ipld::Null,
        Ipld::Bool(b) => Ipld::Bool(*b),
        Ipld::Integer(i) => Ipld::Integer(*i),
        Ipld::Float(f) => Ipld::Float(*f),
        Ipld::String(s) => Ipld::String(s.clone()),
        Ipld::Bytes(b) => Ipld::Bytes(copy_bytes(b)),
        Ipld::Link(b) => Ipld::Link(copy_bytes(b)),
        Ipld::List(l) => {
            proof {
                lemma_ipld_seq_view(l@);
                lemma_list_items_decrease(x@, l@);
            }
            let mut out: Vec<Ipld> = Vec::new();
            let mut i: usize = 0;
            while i < l.len()
                invariant
                    i <= l.len(),
                    out@.len() == i,
                    x@ == IpldV::List(ipld_seq_view(l@)),
                    ipld_seq_view(l@).len() == l@.len(),
                    forall|j: int| 0 <= j < l@.len() ==> #[trigger] ipld_seq_view(l@)[j] == l@[j]@,
                    forall|j: int| 0 <= j < l@.len() ==> decreases_to!(x@ => #[trigger] l@[j]@),
                    forall|j: int| 0 <= j < i ==> #[trigger] out@[j]@ == l@[j]@,
                decreases l.len() - i,
            {
                let y = copy_ipld(&l[i]);
                out.push(y);
                i += 1;
            }
            proof {
                lemma_ipld_seq_view(out@);
                assert forall|j: int| 0 <= j < l@.len() implies #[trigger] ipld_seq_view(out@)[j] == ipld_seq_view(l@)[j] by {
                    assert(out@[j]@ == l@[j]@);
                }
                assert(ipld_seq_view(out@) =~= ipld_seq_view(l@));
            }
            Ipld::List(out)
        },
        Ipld::Dict(m) => Ipld::Dict(copy_map(m)),
    }
}

/// A copy of the map.
fn copy_map(m: &IpldMap) -> (r: IpldMap)
    ensures
        r@ == m@,
    decreases IpldV::Dict(m@), 0int,
{
    proof {
        use_type_invariant(m);
        lemma_entries_view(m.entries@);
        lemma_dict_values_decrease(IpldV::Dict(m@), m@);
    }
    let ghost whole = IpldV::Dict(m@);
    let mut out: Vec<(String, Ipld)> = Vec::new();
    let mut i: usize = 0;
    while i < m.entries.len()
        invariant
            i <= m.entries@.len(),
            out@.len() == i,
            whole == IpldV::Dict(m@),
            m@ == entries_view(m.entries@),
            m@.len() == m.entries@.len(),
            forall|j: int| 0 <= j < m@.len() ==> #[trigger] m@[j] == (m.entries@[j].0@, m.entries@[j].1@),
            forall|j: int| 0 <= j < m@.len() ==> decreases_to!(whole => #[trigger] m@[j].1),
            forall|j: int| 0 <= j < i ==> (#[trigger] out@[j]).0@ == m@[j].0 && out@[j].1@ == m@[j].1,
        decreases m.entries.len() - i,
    {
        assert(m@[i as int].1 == m.entries@[i as int].1@);
        let k = m.entries[i].0.clone();
        let v = copy_ipld(&m.entries[i].1);
        out.push((k, v));
        i += 1;
    }
    proof {
        lemma_entries_view_ext(out@, m@);
    }
    IpldMap { entries: out }
}

/// A copy of the bytes.
fn copy_bytes(b: &Vec<u8>) -> (r: Vec<u8>)
    ensures
        r@ == b@,
{
    let mut out: Vec<u8> = Vec::with_capacity(b.len());
    let mut i: usize = 0;
    while i < b.len()
        invariant
            i <= b.len(),
            out@ == b@.subrange(0, i as int),
        decreases b.len() - i,
    {
        out.push(b[i]);
        i += 1;
    }
    proof {
        assert(b@.subrange(0, b.len() as int) =~= b@);
    }
    out
}

/// Each item of a list value is smaller than the list.
proof fn lemma_list_items_decrease(x: IpldV, l: Seq<Ipld>)
    requires
        x == IpldV::List(ipld_seq_view(l)),
    ensures
        forall|j: int| 0 <= j < l.len() ==> decreases_to!(x => #[trigger] l[j]@),
{
    lemma_ipld_seq_view(l);
    assert forall|j: int| 0 <= j < l.len() implies decreases_to!(x => #[trigger] l[j]@) by {
        let sv = ipld_seq_view(l);
        vstd::seq::axiom_seq_index_decreases(sv, j);
        assert(decreases_to!(x => x->List_0));
        assert(decreases_to!(sv => sv[j]));
    }
}

/// Each value of a map value is smaller than the map.
proof fn lemma_dict_values_decrease(x: IpldV, d: Seq<(Seq<char>, IpldV)>)
    requires
        x == IpldV::Dict(d),
    ensures
        forall|j: int| 0 <= j < d.len() ==> decreases_to!(x => #[trigger] d[j].1),
{
    assert forall|j: int| 0 <= j < d.len() implies decreases_to!(x => #[trigger] d[j].1) by {
        vstd::seq::axiom_seq_index_decreases(d, j);
        let e = d[j];
        assert(decreases_to!(x => x->Dict_0));
        assert(decreases_to!(d => d[j]));
        assert(decreases_to!(e => e.1));
    }
}

/// Reading a map after storing `v` under `k` gives `v` for `k`, and what the
/// map held before for every other key.
pub proof fn law_get_after_insert(
    m: Seq<(Seq<char>, IpldV)>,
    k: Seq<char>,
    v: IpldV,
    k2: Seq<char>,
)
    ensures
        assoc_get(assoc_insert(m, k, v, key_order()), k2) == if k2 == k {
            Some(v)
        } else {
            assoc_get(m, k2)
        },
{
    lemma_assoc_get_insert(m, k, v, key_order(), k2);
}

/// Storing a value keeps a map's keys in increasing order, each key once, and
/// adds an entry exactly when the key was not there.
pub proof fn law_insert_keeps_keys_ordered(m: Seq<(Seq<char>, IpldV)>, k: Seq<char>, v: IpldV)
    requires
        sorted_by(m, key_order()),
    ensures
        sorted_by(assoc_insert(m, k, v, key_order()), key_order()),
        unique_keys(assoc_insert(m, k, v, key_order())),
        assoc_insert(m, k, v, key_order()).len() == if has_key(m, k) {
            m.len()
        } else {
            m.len() + 1
        },
    decreases m.len(),
{
    lemma_key_order_strict_total();
    lemma_assoc_insert_sorted(m, k, v, key_order());
    lemma_sorted_unique(assoc_insert(m, k, v, key_order()), key_order());
    lemma_assoc_insert_len(m, k, v);
}

proof fn lemma_assoc_insert_len(m: Seq<(Seq<char>, IpldV)>, k: Seq<char>, v: IpldV)
    requires
        sorted_by(m, key_order()),
    ensures
        assoc_insert(m, k, v, key_order()).len() == if has_key(m, k) {
            m.len()
        } else {
            m.len() + 1
        },
    decreases m.len(),
{
    lemma_key_order_strict_total();
    if m.len() > 0 {
        let t = m.drop_first();
        assert(sorted_by(t, key_order())) by {
            assert forall|a: int, b: int| 0 <= a < b < t.len() implies key_order()(#[trigger] t[a].0, #[trigger] t[b].0) by {
                assert(t[a] == m[a + 1]);
                assert(t[b] == m[b + 1]);
            }
        }
        assert(has_key(m, k) <==> (m[0].0 == k || has_key(t, k))) by {
            if has_key(m, k) {
                let i = choose|i: int| 0 <= i < m.len() && #[trigger] m[i].0 == k;
                if i > 0 {
                    assert(t[i - 1].0 == k);
                }
            }
            if has_key(t, k) {
                let i = choose|i: int| 0 <= i < t.len() && #[trigger] t[i].0 == k;
                assert(m[i + 1].0 == k);
            }
        }
        if m[0].0 == k {
        } else if key_lt(m[0].0, k) {
            lemma_assoc_insert_len(t, k, v);
        } else {
            assert(key_order()(k, m[0].0) || key_order()(m[0].0, k));
            if has_key(t, k) {
                let i = choose|i: int| 0 <= i < t.len() && #[trigger] t[i].0 == k;
                assert(key_order()(m[0].0, m[i + 1].0));
                assert(m[i + 1] == t[i]);
                assert(!key_order()(k, k));
            }
        }
    }
}

} // verus!
