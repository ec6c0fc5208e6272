//! The interface registry: interface records kept sorted by name bytes, each with the
//! addresses stored for it in arrival order.

use vstd::prelude::*;
use vstd::string::StringSliceAdditionalSpecFns;

use crate::network::Address;
use crate::text::{until_zero, utf8_decode, utf8_str, zero_end};

verus! {

/// Capacity of an interface name, terminating zero included.
pub const NAME_CAPACITY: usize = 16;

/// Byte-wise order of names: the first differing byte decides, and a proper prefix comes
/// first.
pub open spec fn name_lt(a: Seq<u8>, b: Seq<u8>) -> bool
    decreases a.len(),
{
    if b.len() == 0 {
        false
    } else if a.len() == 0 {
        true
    } else if a[0] != b[0] {
        a[0] < b[0]
    } else {
        name_lt(a.drop_first(), b.drop_first())
    }
}

/// The order of names is transitive.
pub proof fn lemma_name_lt_transitive(a: Seq<u8>, b: Seq<u8>, c: Seq<u8>)
    requires
        name_lt(a, b),
        name_lt(b, c),
    ensures
        name_lt(a, c),
    decreases a.len(),
{
    if a.len() > 0 && a[0] == b[0] && b[0] == c[0] {
        lemma_name_lt_transitive(a.drop_first(), b.drop_first(), c.drop_first());
    }
}

/// The order of names is strict: of two names, at most one is below the other, and a name
/// is not below itself.
pub proof fn lemma_name_lt_asymmetric(a: Seq<u8>, b: Seq<u8>)
    requires
        name_lt(a, b),
    ensures
        !name_lt(b, a),
        a != b,
    decreases a.len(),
{
    if a.len() > 0 && a[0] == b[0] {
        lemma_name_lt_asymmetric(a.drop_first(), b.drop_first());
        if a == b {
            assert(a.drop_first() == b.drop_first());
        }
    }
}

/// Compares `a[..na]` with `b[..nb]`: negative when it is below, zero when equal, positive
/// when above.
pub(crate) fn compare_names(a: &[u8], na: usize, b: &[u8], nb: usize) -> (r: i8)
    requires
        na <= a.len(),
        nb <= b.len(),
    ensures
        (r < 0) == name_lt(a@.take(na as int), b@.take(nb as int)),
        (r == 0) == (a@.take(na as int) == b@.take(nb as int)),
        (r > 0) == name_lt(b@.take(nb as int), a@.take(na as int)),
{
    let ghost x = a@.take(na as int);
    let ghost y = b@.take(nb as int);
    let mut i: usize = 0;
    assert(x.skip(0) =~= x && y.skip(0) =~= y);
    while i < na && i < nb
        invariant
            i <= na <= a.len(),
            i <= nb <= b.len(),
            x == a@.take(na as int),
            y == b@.take(nb as int),
            forall|j: int| 0 <= j < i ==> x[j] == y[j],
            name_lt(x, y) == name_lt(x.skip(i as int), y.skip(i as int)),
            name_lt(y, x) == name_lt(y.skip(i as int), x.skip(i as int)),
        decreases na - i,
    {
        assert(x.skip(i as int).drop_first() =~= x.skip(i + 1));
        assert(y.skip(i as int).drop_first() =~= y.skip(i + 1));
        if a[i] != b[i] {
            assert(x[i as int] != y[i as int]);
            if a[i] < b[i] {
                return -1;
            } else {
                return 1;
            }
        }
        i = i + 1;
    }
    if na == nb {
        assert(x =~= y);
        0
    } else if na < nb {
        assert(x.len() != y.len());
        -1
    } else {
        assert(x.len() != y.len());
        1
    }
}

/// An interface record: its name (up to the first zero byte) and its addresses.
pub struct InterfaceData {
    name: [u8; NAME_CAPACITY],
    addresses: Vec<Address>,
}

/// One entry of a registry's view: trimmed name and addresses in arrival order.
pub type Entry = (Seq<u8>, Seq<Address>);

impl InterfaceData {
    /// The entry that this record stands for.
    pub closed spec fn entry(&self) -> Entry {
        (until_zero(self.name@), self.addresses@)
    }

    /// The name, up to its first zero byte.
    pub fn name(&self) -> (r: &[u8])
        ensures
            r@ == self.entry().0,
    {
        let n = zero_end(self.name.as_slice());
        vstd::slice::slice_subrange(self.name.as_slice(), 0, n)
    }

    /// The addresses, in the order they were stored.
    pub fn addresses(&self) -> (r: &Vec<Address>)
        ensures
            r@ == self.entry().1,
    {
        &self.addresses
    }
}

/// Whether the names of a registry's entries strictly increase.
pub open spec fn sorted_names(e: Seq<Entry>) -> bool {
    forall|i: int, j: int| 0 <= i < j < e.len() ==> name_lt(#[trigger] e[i].0, #[trigger] e[j].0)
}

/// How many entries have a name below `key`: where `key` stands, or would be inserted.
pub open spec fn count_below(e: Seq<Entry>, key: Seq<u8>) -> int
    decreases e.len(),
{
    if e.len() == 0 {
        0
    } else {
        count_below(e.drop_last(), key) + if name_lt(e.last().0, key) {
            1int
        } else {
            0int
        }
    }
}

/// The registry after storing `a` under `key`: appended to the record of that name if
/// there is one, else in a new record inserted where the name order puts it.
pub open spec fn store_spec(e: Seq<Entry>, key: Seq<u8>, a: Address) -> Seq<Entry> {
    let p = count_below(e, key);
    if p < e.len() && e[p].0 == key {
        e.update(p, (key, e[p].1.push(a)))
    } else {
        e.insert(p, (key, seq![a]))
    }
}

/// In a sorted registry, the entries below `key` are exactly those before `p`.
pub proof fn lemma_count_below_split(e: Seq<Entry>, key: Seq<u8>, p: int)
    requires
        0 <= p <= e.len(),
        forall|i: int| 0 <= i < p ==> name_lt(#[trigger] e[i].0, key),
        forall|i: int| p <= i < e.len() ==> !name_lt(#[trigger] e[i].0, key),
    ensures
        count_below(e, key) == p,
    decreases e.len(),
{
    if e.len() > 0 {
        if p == e.len() {
            lemma_count_below_split(e.drop_last(), key, p - 1);
        } else {
            lemma_count_below_split(e.drop_last(), key, p);
        }
    }
}

/// In a sorted registry, the position of a present name is its index.
pub proof fn lemma_count_below_present(e: Seq<Entry>, p: int)
    requires
        sorted_names(e),
        0 <= p < e.len(),
    ensures
        count_below(e, e[p].0) == p,
{
    assert forall|i: int| p <= i < e.len() implies !name_lt(#[trigger] e[i].0, e[p].0) by {
        if i == p {
            if name_lt(e[i].0, e[p].0) {
                lemma_name_lt_asymmetric(e[i].0, e[p].0);
            }
        } else {
            lemma_name_lt_asymmetric(e[p].0, e[i].0);
        }
    }
    lemma_count_below_split(e, e[p].0, p);
}

/// Of two different names, one is below the other.
pub proof fn lemma_name_lt_total(a: Seq<u8>, b: Seq<u8>)
    requires
        a != b,
    ensures
        name_lt(a, b) || name_lt(b, a),
    decreases a.len(),
{
    if a.len() > 0 && b.len() > 0 && a[0] == b[0] {
        if a.drop_first() == b.drop_first() {
            assert(a =~= seq![a[0]] + a.drop_first());
            assert(b =~= seq![b[0]] + b.drop_first());
        }
        lemma_name_lt_total(a.drop_first(), b.drop_first());
    } else if a.len() == 0 && b.len() == 0 {
        assert(a =~= b);
    }
}

/// In a sorted registry, the entries below `key` are the first `count_below` ones.
pub proof fn lemma_count_below_sorted(e: Seq<Entry>, key: Seq<u8>)
    requires
        sorted_names(e),
    ensures
        0 <= count_below(e, key) <= e.len(),
        forall|i: int| 0 <= i < count_below(e, key) ==> name_lt(#[trigger] e[i].0, key),
        forall|i: int| count_below(e, key) <= i < e.len() ==> !name_lt(#[trigger] e[i].0, key),
    decreases e.len(),
{
    if e.len() > 0 {
        let d = e.drop_last();
        assert(sorted_names(d)) by {
            assert forall|i: int, j: int| 0 <= i < j < d.len() implies name_lt(
                #[trigger] d[i].0,
                #[trigger] d[j].0,
            ) by {
                assert(d[i] == e[i] && d[j] == e[j]);
            }
        }
        lemma_count_below_sorted(d, key);
        let q = count_below(d, key);
        if name_lt(e.last().0, key) {
            if q < d.len() {
                assert(d[q] == e[q]);
                assert(!name_lt(d[q].0, key));
                assert(name_lt(e[q].0, e[e.len() - 1].0));
                lemma_name_lt_transitive(e[q].0, e.last().0, key);
            }
        }
        assert forall|i: int| 0 <= i < count_below(e, key) implies name_lt(#[trigger] e[i].0, key) by {
            if i < d.len() {
                assert(d[i] == e[i]);
            }
        }
        assert forall|i: int| count_below(e, key) <= i < e.len() implies !name_lt(
            #[trigger] e[i].0,
            key,
        ) by {
            if i < d.len() {
                assert(d[i] == e[i]);
            }
        }
    }
}

/// In a sorted registry, a name can stand only where `count_below` puts it.
pub proof fn lemma_key_position(e: Seq<Entry>, key: Seq<u8>)
    requires
        sorted_names(e),
    ensures
        forall|j: int| 0 <= j < e.len() && (#[trigger] e[j]).0 == key ==> j == count_below(e, key),
{
    lemma_count_below_sorted(e, key);
    let p = count_below(e, key);
    assert forall|j: int| 0 <= j < e.len() && (#[trigger] e[j]).0 == key implies j == p by {
        if j < p {
            lemma_name_lt_asymmetric(e[j].0, key);
        } else if j > p {
            assert(name_lt(e[p].0, e[j].0));
        }
    }
}

/// Storing keeps a registry sorted.
pub proof fn lemma_store_sorted(e: Seq<Entry>, key: Seq<u8>, a: Address)
    requires
        sorted_names(e),
    ensures
        sorted_names(store_spec(e, key, a)),
{
    lemma_count_below_sorted(e, key);
    let p = count_below(e, key);
    let r = store_spec(e, key, a);
    if p < e.len() && e[p].0 == key {
        assert forall|i: int, j: int| 0 <= i < j < r.len() implies name_lt(
            #[trigger] r[i].0,
            #[trigger] r[j].0,
        ) by {
            assert(e[i].0 == r[i].0 && e[j].0 == r[j].0);
        }
    } else {
        assert forall|i: int| p <= i < e.len() implies name_lt(key, #[trigger] e[i].0) by {
            lemma_name_lt_total(key, e[p].0);
            if i > p {
                lemma_name_lt_transitive(key, e[p].0, e[i].0);
            }
        }
        assert forall|i: int, j: int| 0 <= i < j < r.len() implies name_lt(
            #[trigger] r[i].0,
            #[trigger] r[j].0,
        ) by {
            if j < p {
            } else if j == p {
                assert(r[i].0 == e[i].0);
            } else if i < p {
                assert(r[j].0 == e[j - 1].0);
                lemma_name_lt_transitive(e[i].0, key, e[j - 1].0);
            } else if i == p {
                assert(r[j].0 == e[j - 1].0);
            } else {
                assert(r[i].0 == e[i - 1].0 && r[j].0 == e[j - 1].0);
            }
        }
    }
}

proof fn lemma_sorted_drop_first(e: Seq<Entry>)
    requires
        sorted_names(e),
        e.len() > 0,
    ensures
        sorted_names(e.drop_first()),
{
    let d = e.drop_first();
    assert forall|i: int, j: int| 0 <= i < j < d.len() implies name_lt(
        #[trigger] d[i].0,
        #[trigger] d[j].0,
    ) by {
        assert(d[i] == e[i + 1] && d[j] == e[j + 1]);
    }
}

/// Two sorted registries that hold the same entries list them in the same order: the
/// order of the interfaces follows from their names alone.
pub proof fn lemma_sorted_order_unique(e1: Seq<Entry>, e2: Seq<Entry>)
    requires
        sorted_names(e1),
        sorted_names(e2),
        forall|x: Entry| e1.contains(x) <==> e2.contains(x),
    ensures
        e1 == e2,
    decreases e1.len(),
{
    if e1.len() == 0 {
        if e2.len() > 0 {
            assert(e2.contains(e2[0]));
        }
        assert(e1 =~= e2);
    } else {
        assert(e1.contains(e1[0]));
        assert(e2.len() > 0);
        let j = choose|j: int| 0 <= j < e2.len() && e2[j] == e1[0];
        assert(e2.contains(e2[0]));
        let i = choose|i: int| 0 <= i < e1.len() && e1[i] == e2[0];
        if j > 0 {
            assert(name_lt(e2[0].0, e2[j].0));
            if i > 0 {
                assert(name_lt(e1[0].0, e1[i].0));
                lemma_name_lt_asymmetric(e1[0].0, e1[i].0);
            } else {
                lemma_name_lt_asymmetric(e2[0].0, e2[j].0);
            }
        }
        assert(e1[0] == e2[0]);
        let d1 = e1.drop_first();
        let d2 = e2.drop_first();
        lemma_sorted_drop_first(e1);
        lemma_sorted_drop_first(e2);
        assert forall|x: Entry| d1.contains(x) <==> d2.contains(x) by {
            if d1.contains(x) {
                let k = choose|k: int| 0 <= k < d1.len() && d1[k] == x;
                assert(e1[k + 1] == x);
                assert(e1.contains(x));
                let m = choose|m: int| 0 <= m < e2.len() && e2[m] == x;
                if m == 0 {
                    assert(name_lt(e1[0].0, e1[k + 1].0));
                    lemma_name_lt_asymmetric(e1[0].0, e1[k + 1].0);
                }
                assert(d2[m - 1] == x);
            }
            if d2.contains(x) {
                let k = choose|k: int| 0 <= k < d2.len() && d2[k] == x;
                assert(e2[k + 1] == x);
                assert(e2.contains(x));
                let m = choose|m: int| 0 <= m < e1.len() && e1[m] == x;
                if m == 0 {
                    assert(name_lt(e2[0].0, e2[k + 1].0));
                    lemma_name_lt_asymmetric(e2[0].0, e2[k + 1].0);
                }
                assert(d1[m - 1] == x);
            }
        }
        lemma_sorted_order_unique(d1, d2);
        assert(e1 =~= seq![e1[0]] + d1);
        assert(e2 =~= seq![e2[0]] + d2);
    }
}

/// Network interfaces and their addresses, sorted by name.
pub struct Interfaces {
    inner: Vec<InterfaceData>,
}

/// The entries that a list of records stands for.
pub closed spec fn entries_of(v: Seq<InterfaceData>) -> Seq<Entry> {
    v.map_values(|d: InterfaceData| d.entry())
}

impl View for Interfaces {
    type V = Seq<Entry>;

    closed spec fn view(&self) -> Seq<Entry> {
        entries_of(self.inner@)
    }
}

impl Interfaces {
    /// The records are always sorted by name, and so have distinct names.
    #[verifier::type_invariant]
    pub(crate) open spec fn names_sorted(&self) -> bool {
        sorted_names(self@)
    }

    /// An empty registry.
    pub fn empty() -> (r: Interfaces)
        ensures
            r@ == Seq::<Entry>::empty(),
            sorted_names(r@),
    {
        let r = Interfaces { inner: Vec::new() };
        assert(r@ =~= Seq::<Entry>::empty());
        r
    }

    /// The number of interface records.
    pub fn len(&self) -> (r: usize)
        ensures
            r == self@.len(),
    {
        self.inner.len()
    }

    /// The record at position `i` in name order.
    pub fn get(&self, i: usize) -> (r: &InterfaceData)
        requires
            i < self@.len(),
        ensures
            r.entry() == self@[i as int],
    {
        &self.inner[i]
    }

    /// Finds the record named `name[..n]`: `Ok` with its position, or `Err` with the
    /// position where such a record would be inserted.
    fn find(&self, name: &[u8], n: usize) -> (r: Result<usize, usize>)
        requires
            n <= name.len(),
        ensures
            match r {
                Ok(p) => p < self@.len() && self@[p as int].0 == name@.take(n as int) && p
                    == count_below(self@, name@.take(n as int)),
                Err(p) => {
                    &&& p == count_below(self@, name@.take(n as int))
                    &&& p <= self@.len()
                    &&& forall|i: int|
                        0 <= i < p ==> name_lt(#[trigger] self@[i].0, name@.take(n as int))
                    &&& forall|i: int|
                        p <= i < self@.len() ==> name_lt(name@.take(n as int), #[trigger] self@[i].0)
                },
            },
    {
        proof {
            use_type_invariant(self);
        }
        let ghost key = name@.take(n as int);
        let ghost e = self@;
        let mut lo: usize = 0;
        let mut hi: usize = self.inner.len();
        while lo < hi
            invariant
                0 <= lo <= hi <= e.len(),
                e == self@,
                e.len() == self.inner@.len(),
                sorted_names(e),
                key == name@.take(n as int),
                n <= name.len(),
                forall|i: int| 0 <= i < lo ==> name_lt(#[trigger] e[i].0, key),
                forall|i: int| hi <= i < e.len() ==> name_lt(key, #[trigger] e[i].0),
            decreases hi - lo,
        {
            let mid = lo + (hi - lo) / 2;
            let d = &self.inner[mid];
            let dn = zero_end(d.name.as_slice());
            assert(e[mid as int] == d.entry());
            assert(d.name@.take(dn as int) == e[mid as int].0);
            let c = compare_names(d.name.as_slice(), dn, name, n);
            if c == 0 {
                proof {
                    lemma_count_below_present(e, mid as int);
                }
                return Ok(mid);
            } else if c < 0 {
                assert forall|i: int| 0 <= i < mid + 1 implies name_lt(#[trigger] e[i].0, key) by {
                    if i < mid {
                        lemma_name_lt_transitive(e[i].0, e[mid as int].0, key);
                    }
                }
                lo = mid + 1;
            } else {
                assert forall|i: int| mid <= i < e.len() implies name_lt(key, #[trigger] e[i].0) by {
                    if i > mid {
                        lemma_name_lt_transitive(key, e[mid as int].0, e[i].0);
                    }
                }
                hi = mid;
            }
        }
        proof {
            assert forall|i: int| lo <= i < e.len() implies !name_lt(#[trigger] e[i].0, key) by {
                lemma_name_lt_asymmetric(key, e[i].0);
            }
            lemma_count_below_split(e, key, lo as int);
        }
        Err(lo)
    }

    /// Stores `address` under the interface `name` (up to its first zero byte): appended
    /// to the record of that name, or in a new record inserted at its place in name order.
    pub fn store(&mut self, name: [u8; NAME_CAPACITY], address: Address)
        ensures
            sorted_names(final(self)@),
            final(self)@ == store_spec(old(self)@, until_zero(name@), address),
    {
        proof {
            use_type_invariant(&*self);
        }
        let n = zero_end(name.as_slice());
        let ghost key = until_zero(name@);
        let ghost e = self@;
        assert(name@.take(n as int) == key);
        let found = self.find(name.as_slice(), n);
        let mut v: Vec<InterfaceData> = Vec::new();
        std::mem::swap(&mut self.inner, &mut v);
        assert(entries_of(v@) == e);
        proof {
            lemma_store_sorted(e, key, address);
        }
        match found {
            Ok(p) => {
                let mut d = v.remove(p);
                d.addresses.push(address);
                v.insert(p, d);
                assert(entries_of(v@) =~= e.update(p as int, (key, e[p as int].1.push(address))));
            },
            Err(p) => {
                let mut d = InterfaceData { name, addresses: Vec::new() };
                d.addresses.push(address);
                assert(d.addresses@ =~= seq![address]);
                v.insert(p, d);
                proof {
                    if p < e.len() {
                        lemma_name_lt_asymmetric(key, e[p as int].0);
                    }
                }
                assert(entries_of(v@) =~= e.insert(p as int, (key, seq![address])));
            },
        }
        self.inner = v;
    }
}

/// A cursor over the records of a registry, in name order.
pub struct InterfacesIter<'a> {
    list: &'a Vec<InterfaceData>,
    pos: usize,
}

/// One interface of a registry.
pub struct Interface<'a> {
    data: &'a InterfaceData,
}

/// A cursor over the addresses of an interface, in the order they were stored.
pub struct Addresses<'a> {
    list: &'a Vec<Address>,
    pos: usize,
}

impl<'a> InterfacesIter<'a> {
    /// Whether the cursor stands within its list.
    pub closed spec fn wf(&self) -> bool {
        self.pos <= self.list@.len()
    }

    /// The entries not yet passed.
    pub closed spec fn remaining(&self) -> Seq<Entry> {
        self.list@.skip(self.pos as int).map_values(|d: InterfaceData| d.entry())
    }

    /// Returns the current interface, if any, without moving the cursor.
    pub fn interface(&self) -> (r: Option<Interface<'a>>)
        requires
            self.wf(),
        ensures
            r.is_some() == (self.remaining().len() > 0),
            r.is_some() ==> r.unwrap().entry() == self.remaining()[0],
    {
        if self.pos < self.list.len() {
            Some(Interface { data: &self.list[self.pos] })
        } else {
            None
        }
    }

    /// Returns the current interface, if any, and moves past it.
    pub fn next_interface(&mut self) -> (r: Option<Interface<'a>>)
        requires
            old(self).wf(),
        ensures
            final(self).wf(),
            r.is_some() == (old(self).remaining().len() > 0),
            r.is_some() ==> r.unwrap().entry() == old(self).remaining()[0]
                && final(self).remaining() == old(self).remaining().drop_first(),
            r.is_none() ==> final(self).remaining() == old(self).remaining(),
    {
        if self.pos < self.list.len() {
            let r = Interface { data: &self.list[self.pos] };
            self.pos = self.pos + 1;
            assert(self.remaining() =~= old(self).remaining().drop_first());
            Some(r)
        } else {
            None
        }
    }
}

impl<'a> Interface<'a> {
    /// The name and addresses of this interface.
    pub closed spec fn entry(&self) -> Entry {
        self.data.entry()
    }

    /// Returns the name as raw bytes.
    pub fn name_bytes(&self) -> (r: &'a [u8])
        ensures
            r@ == self.entry().0,
    {
        self.data.name()
    }

    /// Returns the name when it is valid UTF-8.
    pub fn name(&self) -> (r: Option<&'a str>)
        ensures
            r.is_some() ==> utf8_decode(self.entry().0) == Some(r.unwrap()@),
            r.is_some() ==> r.unwrap().spec_bytes() == self.entry().0,
            r.is_none() ==> utf8_decode(self.entry().0).is_none(),
    {
        utf8_str(self.data.name())
    }

    /// Returns a cursor over the interface's addresses.
    pub fn addresses(&self) -> (r: Addresses<'a>)
        ensures
            r.wf(),
            r.remaining() == self.entry().1,
    {
        let r = Addresses { list: &self.data.addresses, pos: 0 };
        assert(r.remaining() =~= self.entry().1);
        r
    }
}

impl<'a> Addresses<'a> {
    /// Whether the cursor stands within its list.
    pub closed spec fn wf(&self) -> bool {
        self.pos <= self.list@.len()
    }

    /// The addresses not yet passed.
    pub closed spec fn remaining(&self) -> Seq<Address> {
        self.list@.skip(self.pos as int)
    }

    /// Returns the next address, if any, and moves past it.
    pub fn next_addr(&mut self) -> (r: Option<Address>)
        requires
            old(self).wf(),
        ensures
            final(self).wf(),
            r.is_some() == (old(self).remaining().len() > 0),
            r.is_some() ==> r.unwrap() == old(self).remaining()[0] && final(self).remaining()
                == old(self).remaining().drop_first(),
            r.is_none() ==> final(self).remaining() == old(self).remaining(),
    {
        if self.pos < self.list.len() {
            let a = self.list[self.pos];
            self.pos = self.pos + 1;
            assert(self.remaining() =~= old(self).remaining().drop_first());
            Some(a)
        } else {
            None
        }
    }
}

impl Interfaces {
    /// Returns a cursor over the interfaces, in name order.
    pub fn iter(&self) -> (r: InterfacesIter<'_>)
        ensures
            r.wf(),
            r.remaining() == self@,
            sorted_names(r.remaining()),
    {
        proof {
            use_type_invariant(self);
        }
        let r = InterfacesIter { list: &self.inner, pos: 0 };
        assert(r.remaining() =~= self@);
        r
    }
}

} // verus!
