//! One step of the address enumeration: what a received datagram does to the registry,
//! and whether the dump goes on, is complete, or has failed.

use vstd::prelude::*;

use crate::netlink::{encode_dump, lemma_round_trip, parse_datagram, walk, AddrRecord, StreamEnd};
use crate::network::Address;
use crate::registry::{
    count_below, lemma_count_below_sorted, lemma_key_position, lemma_store_sorted, sorted_names,
    store_spec, Entry, Interfaces, NAME_CAPACITY,
};
use crate::text::until_zero;

verus! {

/// What the receive loop does after a datagram.
#[derive(Debug, Clone, Copy, PartialEq, Eq, Structural)]
pub enum Step {
    /// Receive the next datagram.
    Continue,
    /// The dump is complete: the registry is the result.
    Finished,
    /// The dump failed: there is no result.
    Failed,
}

/// What the receive loop does after a datagram that ended with `end`, where `resolved`
/// says whether the name of every one of its records was found.
pub open spec fn step_of(end: StreamEnd, resolved: bool) -> Step {
    if end == StreamEnd::Error || !resolved {
        Step::Failed
    } else if end == StreamEnd::Done {
        Step::Finished
    } else {
        Step::Continue
    }
}

/// The registry `e` after a datagram that walked to `records` and `end`, `names[i]` being
/// the name looked up for record `i`: unchanged when the dump failed, else with the
/// records stored.
pub open spec fn applied(
    e: Seq<Entry>,
    records: Seq<AddrRecord>,
    end: StreamEnd,
    names: Seq<Option<[u8; NAME_CAPACITY]>>,
) -> Seq<Entry> {
    if step_of(end, all_resolved(names)) == Step::Failed {
        e
    } else {
        store_all(e, named_records(records, unwrap_names(names)))
    }
}

/// The registry after storing each address under its name, in order.
pub open spec fn store_all(e: Seq<Entry>, named: Seq<(Seq<u8>, Address)>) -> Seq<Entry>
    decreases named.len(),
{
    if named.len() == 0 {
        e
    } else {
        store_spec(store_all(e, named.drop_last()), named.last().0, named.last().1)
    }
}

/// The addresses stored under `key`, in the order they came.
pub open spec fn addrs_for(named: Seq<(Seq<u8>, Address)>, key: Seq<u8>) -> Seq<Address>
    decreases named.len(),
{
    if named.len() == 0 {
        seq![]
    } else {
        addrs_for(named.drop_last(), key) + if named.last().0 == key {
            seq![named.last().1]
        } else {
            seq![]
        }
    }
}

proof fn lemma_addrs_for_absent(named: Seq<(Seq<u8>, Address)>, key: Seq<u8>)
    requires
        forall|j: int| 0 <= j < named.len() ==> (#[trigger] named[j]).0 != key,
    ensures
        addrs_for(named, key) == Seq::<Address>::empty(),
    decreases named.len(),
{
    if named.len() > 0 {
        let d = named.drop_last();
        assert forall|j: int| 0 <= j < d.len() implies (#[trigger] d[j]).0 != key by {
            assert(d[j] == named[j]);
        }
        lemma_addrs_for_absent(d, key);
        assert(named.last() == named[named.len() - 1]);
        assert(addrs_for(named, key) =~= Seq::<Address>::empty());
    }
}

/// Whether a registry has an entry named `k`.
pub open spec fn has_entry(e: Seq<Entry>, k: Seq<u8>) -> bool {
    exists|i: int| 0 <= i < e.len() && (#[trigger] e[i]).0 == k
}

/// Whether an address was stored under the name `k`.
pub open spec fn has_name(named: Seq<(Seq<u8>, Address)>, k: Seq<u8>) -> bool {
    exists|j: int| 0 <= j < named.len() && (#[trigger] named[j]).0 == k
}

/// Storing named addresses one after another into an empty registry gives one record
/// per distinct name and no other, the records in strictly increasing name order, each
/// holding every address stored under its name, in the order they came.
#[verifier::rlimit(50)]
pub proof fn lemma_grouped(named: Seq<(Seq<u8>, Address)>)
    ensures
        sorted_names(store_all(seq![], named)),
        forall|i: int|
            0 <= i < store_all(seq![], named).len() ==> (#[trigger] store_all(seq![], named)[i]).1
                == addrs_for(named, store_all(seq![], named)[i].0),
        forall|k: Seq<u8>| #[trigger] has_entry(store_all(seq![], named), k) <==> has_name(named, k),
    decreases named.len(),
{
    if named.len() > 0 {
        let d = named.drop_last();
        let k = named.last().0;
        let a = named.last().1;
        lemma_grouped(d);
        let g0 = store_all(seq![], d);
        let g = store_all(seq![], named);
        assert(g == store_spec(g0, k, a));
        lemma_store_sorted(g0, k, a);
        lemma_count_below_sorted(g0, k);
        lemma_key_position(g0, k);
        let p = count_below(g0, k);
        assert forall|j: int| 0 <= j < d.len() implies #[trigger] d[j] == named[j] by {}
        assert(named[named.len() - 1] == named.last());
        if p < g0.len() && g0[p].0 == k {
            assert forall|i: int| 0 <= i < g.len() implies (#[trigger] g[i]).1 == addrs_for(named, g[i].0) by {
                if i == p {
                    assert(g[i].1 =~= addrs_for(d, k) + seq![a]);
                } else {
                    assert(g[i] == g0[i]);
                    assert(g0[i].0 != k);
                    assert(addrs_for(named, g[i].0) =~= addrs_for(d, g[i].0));
                }
            }
            assert forall|x: Seq<u8>| #[trigger] has_entry(g, x) <==> has_name(named, x) by {
                if exists|i: int| 0 <= i < g.len() && (#[trigger] g[i]).0 == x {
                    let i = choose|i: int| 0 <= i < g.len() && (#[trigger] g[i]).0 == x;
                    if x != k {
                        assert(g0[i].0 == x);
                        assert(has_entry(g0, x));
                        let j = choose|j: int| 0 <= j < d.len() && (#[trigger] d[j]).0 == x;
                        assert(named[j].0 == x);
                    } else {
                        assert(named[named.len() - 1].0 == x);
                    }
                }
                if exists|j: int| 0 <= j < named.len() && (#[trigger] named[j]).0 == x {
                    let j = choose|j: int| 0 <= j < named.len() && (#[trigger] named[j]).0 == x;
                    if x == k {
                        assert(g[p].0 == x);
                    } else {
                        assert(d[j].0 == x);
                        assert(has_name(d, x));
                        assert(has_entry(g0, x));
                        let i = choose|i: int| 0 <= i < g0.len() && (#[trigger] g0[i]).0 == x;
                        assert(i != p);
                        assert(g[i] == g0[i]);
                        assert(g[i].0 == x);
                    }
                }
            }
        } else {
            assert forall|j: int| 0 <= j < d.len() implies (#[trigger] d[j]).0 != k by {
                if d[j].0 == k {
                    assert(has_name(d, k));
                    assert(has_entry(g0, k));
                    let i = choose|i: int| 0 <= i < g0.len() && (#[trigger] g0[i]).0 == k;
                }
            }
            lemma_addrs_for_absent(d, k);
            assert forall|i: int| 0 <= i < g.len() implies (#[trigger] g[i]).1 == addrs_for(named, g[i].0) by {
                if i == p {
                    assert(addrs_for(named, k) =~= seq![a]);
                } else {
                    let i0 = if i < p { i } else { i - 1 };
                    assert(g[i] == g0[i0]);
                    assert(g0[i0].0 != k);
                    assert(addrs_for(named, g[i].0) =~= addrs_for(d, g[i].0));
                }
            }
            assert forall|x: Seq<u8>| #[trigger] has_entry(g, x) <==> has_name(named, x) by {
                if exists|i: int| 0 <= i < g.len() && (#[trigger] g[i]).0 == x {
                    let i = choose|i: int| 0 <= i < g.len() && (#[trigger] g[i]).0 == x;
                    if x != k {
                        let i0 = if i < p { i } else { i - 1 };
                        assert(g0[i0].0 == x);
                        assert(has_entry(g0, x));
                        let j = choose|j: int| 0 <= j < d.len() && (#[trigger] d[j]).0 == x;
                        assert(named[j].0 == x);
                    } else {
                        assert(named[named.len() - 1].0 == x);
                    }
                }
                if exists|j: int| 0 <= j < named.len() && (#[trigger] named[j]).0 == x {
                    let j = choose|j: int| 0 <= j < named.len() && (#[trigger] named[j]).0 == x;
                    if x == k {
                        assert(g[p].0 == x);
                    } else {
                        assert(d[j].0 == x);
                        assert(has_name(d, x));
                        assert(has_entry(g0, x));
                        let i = choose|i: int| 0 <= i < g0.len() && (#[trigger] g0[i]).0 == x;
                        let i1 = if i < p { i } else { i + 1 };
                        assert(g[i1] == g0[i]);
                        assert(g[i1].0 == x);
                    }
                }
            }
        }
    }
}

/// The records paired with the names resolved for them.
pub open spec fn named_records(records: Seq<AddrRecord>, names: Seq<[u8; NAME_CAPACITY]>) -> Seq<
    (Seq<u8>, Address),
> {
    Seq::new(records.len(), |i: int| (until_zero(names[i]@), records[i].address))
}

/// Whether every record's name was resolved.
pub open spec fn all_resolved(names: Seq<Option<[u8; NAME_CAPACITY]>>) -> bool {
    forall|i: int| 0 <= i < names.len() ==> (#[trigger] names[i]).is_some()
}

/// The resolved names, once all are present.
pub open spec fn unwrap_names(names: Seq<Option<[u8; NAME_CAPACITY]>>) -> Seq<[u8; NAME_CAPACITY]> {
    names.map_values(|n: Option<[u8; NAME_CAPACITY]>| n.unwrap())
}

/// The fixed-capacity form of a name: its first bytes, zero-filled, cut at the capacity.
pub open spec fn name_array_of(bytes: Seq<u8>) -> Seq<u8> {
    Seq::new(NAME_CAPACITY as nat, |i: int| if i < bytes.len() { bytes[i] } else { 0u8 })
}

/// Puts name bytes into the fixed-capacity form.
pub fn name_array(bytes: &[u8]) -> (r: [u8; NAME_CAPACITY])
    ensures
        r@ == name_array_of(bytes@),
{
    let mut r: [u8; NAME_CAPACITY] = [0u8; NAME_CAPACITY];
    let mut i: usize = 0;
    while i < NAME_CAPACITY
        invariant
            0 <= i <= NAME_CAPACITY,
            forall|j: int| 0 <= j < i ==> r[j] == (if j < bytes@.len() { bytes@[j] } else { 0u8 }),
            forall|j: int| i <= j < NAME_CAPACITY ==> r[j] == 0,
        decreases NAME_CAPACITY - i,
    {
        if i < bytes.len() {
            r[i] = bytes[i];
        }
        i = i + 1;
    }
    assert(r@ =~= name_array_of(bytes@));
    r
}

/// Relies on `nix::net::if_::if_indextoname`: the name of the interface with this index,
/// read from a zero-filled buffer of the name capacity up to its first zero byte, or
/// nothing when the lookup fails. Which name it gives depends on the system at the time
/// of the call.
#[verifier::external_body]
fn index_to_name(index: u32) -> (r: Option<Vec<u8>>)
    ensures
        r.is_some() ==> r.unwrap()@.len() < NAME_CAPACITY,
        r.is_some() ==> forall|i: int| 0 <= i < r.unwrap()@.len() ==> r.unwrap()@[i] != 0,
{
    nix::net::if_::if_indextoname(index).ok().map(|n| n.into_bytes())
}

/// Looks up the name of each record's interface, in order. Each name found ends with a
/// zero byte, so it is shorter than the capacity.
pub fn resolve_names(records: &Vec<AddrRecord>) -> (r: Vec<Option<[u8; NAME_CAPACITY]>>)
    ensures
        r@.len() == records@.len(),
        forall|i: int|
            0 <= i < r@.len() && (#[trigger] r@[i]).is_some() ==> r@[i].unwrap()[NAME_CAPACITY - 1]
                == 0,
{
    let mut r: Vec<Option<[u8; NAME_CAPACITY]>> = Vec::new();
    let mut i: usize = 0;
    while i < records.len()
        invariant
            0 <= i <= records@.len(),
            r@.len() == i,
            forall|j: int|
                0 <= j < r@.len() && (#[trigger] r@[j]).is_some() ==> r@[j].unwrap()[NAME_CAPACITY - 1]
                    == 0,
        decreases records@.len() - i,
    {
        let name = match index_to_name(records[i].index) {
            Some(bytes) => Some(name_array(bytes.as_slice())),
            None => None,
        };
        r.push(name);
        i = i + 1;
    }
    r
}

impl Interfaces {
    /// Stores the records of a datagram, `names[i]` being the resolved name of the
    /// interface of `records[i]`. Returns false, storing nothing, when a name is missing.
    pub fn store_records(
        &mut self,
        records: &Vec<AddrRecord>,
        names: &Vec<Option<[u8; NAME_CAPACITY]>>,
    ) -> (ok: bool)
        requires
            names@.len() == records@.len(),
        ensures
            sorted_names(final(self)@),
            ok == all_resolved(names@),
            ok ==> final(self)@ == store_all(
                old(self)@,
                named_records(records@, unwrap_names(names@)),
            ),
            !ok ==> final(self)@ == old(self)@,
    {
        proof {
            use_type_invariant(&*self);
        }
        let mut k: usize = 0;
        while k < names.len()
            invariant
                0 <= k <= names@.len(),
                self@ == old(self)@,
                sorted_names(self@),
                forall|j: int| 0 <= j < k ==> (#[trigger] names@[j]).is_some(),
            decreases names@.len() - k,
        {
            if names[k].is_none() {
                return false;
            }
            k = k + 1;
        }
        let ghost named = named_records(records@, unwrap_names(names@));
        let ghost start = self@;
        let mut i: usize = 0;
        while i < records.len()
            invariant
                0 <= i <= records@.len(),
                names@.len() == records@.len(),
                all_resolved(names@),
                named == named_records(records@, unwrap_names(names@)),
                sorted_names(self@),
                self@ == store_all(start, named.take(i as int)),
            decreases records@.len() - i,
        {
            let name = match names[i] {
                Some(n) => n,
                None => [0u8; NAME_CAPACITY],
            };
            assert(named.take(i + 1).drop_last() =~= named.take(i as int));
            self.store(name, records[i].address);
            i = i + 1;
        }
        assert(named.take(records@.len() as int) =~= named);
        true
    }

    /// Takes in one walked datagram, `records` and `end` being what the walk gave and
    /// `names[i]` the name looked up for record `i`: on an ERROR message or a missing name
    /// the dump has failed and nothing is stored; otherwise the records are stored and
    /// the dump is complete after DONE, else goes on.
    pub fn apply_datagram(
        &mut self,
        records: &Vec<AddrRecord>,
        end: StreamEnd,
        names: &Vec<Option<[u8; NAME_CAPACITY]>>,
    ) -> (r: Step)
        requires
            names@.len() == records@.len(),
        ensures
            r == step_of(end, all_resolved(names@)),
            final(self)@ == applied(old(self)@, records@, end, names@),
            sorted_names(final(self)@),
    {
        if end == StreamEnd::Error {
            proof {
                use_type_invariant(&*self);
            }
            return Step::Failed;
        }
        if !self.store_records(records, names) {
            return Step::Failed;
        }
        match end {
            StreamEnd::Done => Step::Finished,
            _ => Step::Continue,
        }
    }

    /// Takes in one received datagram: walks it, looks up the name of each record's
    /// interface, and applies it as `apply_datagram` does. The names depend on the system,
    /// so what is promised holds for whatever the lookups gave.
    pub fn feed(&mut self, buf: &[u8]) -> (r: Step)
        ensures
            sorted_names(final(self)@),
            exists|names: Seq<Option<[u8; NAME_CAPACITY]>>|
                names.len() == walk(buf@).0.len() && r == step_of(walk(buf@).1, all_resolved(names))
                    && final(self)@ == applied(old(self)@, walk(buf@).0, walk(buf@).1, names),
            walk(buf@).1 != StreamEnd::Error && walk(buf@).0.len() == 0 ==> r == (if walk(buf@).1
                == StreamEnd::Done {
                Step::Finished
            } else {
                Step::Continue
            }) && final(self)@ == old(self)@,
            r == Step::Failed ==> final(self)@ == old(self)@ && (walk(buf@).1 == StreamEnd::Error
                || walk(buf@).0.len() > 0),
            r == Step::Finished ==> walk(buf@).1 == StreamEnd::Done,
            r == Step::Continue ==> walk(buf@).1 == StreamEnd::More,
    {
        let (records, end) = parse_datagram(buf);
        if end == StreamEnd::Error {
            proof {
                use_type_invariant(&*self);
                let none = Seq::new(records@.len(), |i: int| None::<[u8; NAME_CAPACITY]>);
                assert(step_of(end, all_resolved(none)) == Step::Failed);
                assert(applied(self@, records@, end, none) == self@);
            }
            return Step::Failed;
        }
        let names = resolve_names(&records);
        let r = self.apply_datagram(&records, end, &names);
        proof {
            if records@.len() == 0 {
                assert(all_resolved(names@));
                assert(named_records(records@, unwrap_names(names@)).len() == 0);
            }
        }
        r
    }
}

/// A dump that carries records in well-formed, aligned address messages and ends with
/// DONE is complete, and storing what it walks to into an empty registry, `names[i]`
/// being the name resolved for record `i`, gives one record per distinct name, in name
/// order, each holding the addresses of exactly its records, in the order they came.
pub proof fn lemma_dump_grouped(rs: Seq<AddrRecord>, names: Seq<[u8; NAME_CAPACITY]>)
    requires
        names.len() == rs.len(),
    ensures
        walk(encode_dump(rs)).1 == StreamEnd::Done,
        walk(encode_dump(rs)).0 == rs,
        sorted_names(store_all(seq![], named_records(walk(encode_dump(rs)).0, names))),
        forall|i: int|
            0 <= i < store_all(seq![], named_records(rs, names)).len() ==> (#[trigger] store_all(
                seq![],
                named_records(rs, names),
            )[i]).1 == addrs_for(named_records(rs, names), store_all(seq![], named_records(rs, names))[i].0),
        forall|k: Seq<u8>|
            #[trigger] has_entry(store_all(seq![], named_records(rs, names)), k) <==> has_name(
                named_records(rs, names),
                k,
            ),
{
    lemma_round_trip(rs);
    lemma_grouped(named_records(rs, names));
}

/// The outcome of a dump received as `datagrams` into the registry `e`, `names[k][i]`
/// being the name looked up for record `i` of datagram `k`: the registry once a datagram
/// completes the dump, nothing when one fails it or when the datagrams run out first.
pub open spec fn enumeration(
    e: Seq<Entry>,
    datagrams: Seq<Seq<u8>>,
    names: Seq<Seq<Option<[u8; NAME_CAPACITY]>>>,
) -> Option<Seq<Entry>>
    decreases datagrams.len(),
{
    if datagrams.len() == 0 || names.len() == 0 {
        None
    } else {
        let w = walk(datagrams[0]);
        let step = step_of(w.1, all_resolved(names[0]));
        let next = applied(e, w.0, w.1, names[0]);
        if step == Step::Failed {
            None
        } else if step == Step::Finished {
            Some(next)
        } else {
            enumeration(next, datagrams.drop_first(), names.drop_first())
        }
    }
}

/// The named records of the first `n` datagrams, in the order they came.
pub open spec fn named_prefix(
    datagrams: Seq<Seq<u8>>,
    names: Seq<Seq<Option<[u8; NAME_CAPACITY]>>>,
    n: nat,
) -> Seq<(Seq<u8>, Address)>
    decreases n,
{
    if n == 0 || datagrams.len() == 0 || names.len() == 0 {
        seq![]
    } else {
        named_records(walk(datagrams[0]).0, unwrap_names(names[0])) + named_prefix(
            datagrams.drop_first(),
            names.drop_first(),
            (n - 1) as nat,
        )
    }
}

/// Storing two runs of named addresses one after the other is storing them joined.
pub proof fn lemma_store_all_append(e: Seq<Entry>, a: Seq<(Seq<u8>, Address)>, b: Seq<(Seq<u8>, Address)>)
    ensures
        store_all(store_all(e, a), b) == store_all(e, a + b),
    decreases b.len(),
{
    if b.len() == 0 {
        assert(a + b =~= a);
    } else {
        lemma_store_all_append(e, a, b.drop_last());
        assert((a + b).drop_last() =~= a + b.drop_last());
        assert((a + b).last() == b.last());
    }
}

/// An ERROR message that the walk reaches before any datagram completed or failed the
/// dump makes the whole enumeration fail, whatever was stored before it.
pub proof fn lemma_enumeration_error(
    e: Seq<Entry>,
    datagrams: Seq<Seq<u8>>,
    names: Seq<Seq<Option<[u8; NAME_CAPACITY]>>>,
    k: int,
)
    requires
        0 <= k < datagrams.len(),
        names.len() == datagrams.len(),
        walk(datagrams[k]).1 == StreamEnd::Error,
        forall|j: int|
            0 <= j < k ==> step_of(walk(#[trigger] datagrams[j]).1, all_resolved(names[j]))
                == Step::Continue,
    ensures
        enumeration(e, datagrams, names) is None,
    decreases k,
{
    if k > 0 {
        let next = applied(e, walk(datagrams[0]).0, walk(datagrams[0]).1, names[0]);
        assert forall|j: int| 0 <= j < k - 1 implies step_of(
            walk(#[trigger] datagrams.drop_first()[j]).1,
            all_resolved(names.drop_first()[j]),
        ) == Step::Continue by {
            assert(datagrams.drop_first()[j] == datagrams[j + 1]);
        }
        lemma_enumeration_error(next, datagrams.drop_first(), names.drop_first(), k - 1);
    }
}

/// A dump whose datagrams go on up to datagram `k`, which ends with DONE, every name of
/// every record being found, enumerates to the registry that storing all their records,
/// in the order they came, gives.
pub proof fn lemma_enumeration_complete(
    e: Seq<Entry>,
    datagrams: Seq<Seq<u8>>,
    names: Seq<Seq<Option<[u8; NAME_CAPACITY]>>>,
    k: int,
)
    requires
        0 <= k < datagrams.len(),
        names.len() == datagrams.len(),
        walk(datagrams[k]).1 == StreamEnd::Done,
        forall|j: int| 0 <= j < k ==> walk(#[trigger] datagrams[j]).1 == StreamEnd::More,
        forall|j: int| 0 <= j <= k ==> all_resolved(#[trigger] names[j]),
    ensures
        enumeration(e, datagrams, names) == Some(
            store_all(e, named_prefix(datagrams, names, (k + 1) as nat)),
        ),
    decreases k,
{
    let first = named_records(walk(datagrams[0]).0, unwrap_names(names[0]));
    assert(all_resolved(names[0]));
    if k == 0 {
        assert(named_prefix(datagrams.drop_first(), names.drop_first(), 0) =~= seq![]);
        assert(first + seq![] =~= first);
    } else {
        assert(walk(datagrams[0]).1 == StreamEnd::More);
        let next = store_all(e, first);
        assert forall|j: int| 0 <= j < k - 1 implies walk(#[trigger] datagrams.drop_first()[j]).1
            == StreamEnd::More by {
            assert(datagrams.drop_first()[j] == datagrams[j + 1]);
        }
        assert forall|j: int| 0 <= j <= k - 1 implies all_resolved(#[trigger] names.drop_first()[j]) by {
            assert(names.drop_first()[j] == names[j + 1]);
        }
        lemma_enumeration_complete(next, datagrams.drop_first(), names.drop_first(), k - 1);
        lemma_store_all_append(e, first, named_prefix(datagrams.drop_first(), names.drop_first(), k as nat));
    }
}

/// A dump that completes with every name found, enumerated into an empty registry,
/// gives one record per distinct name, in name order, each holding every address stored
/// under that name across all datagrams, in the order they came.
pub proof fn lemma_enumeration_grouped(
    datagrams: Seq<Seq<u8>>,
    names: Seq<Seq<Option<[u8; NAME_CAPACITY]>>>,
    k: int,
)
    requires
        0 <= k < datagrams.len(),
        names.len() == datagrams.len(),
        walk(datagrams[k]).1 == StreamEnd::Done,
        forall|j: int| 0 <= j < k ==> walk(#[trigger] datagrams[j]).1 == StreamEnd::More,
        forall|j: int| 0 <= j <= k ==> all_resolved(#[trigger] names[j]),
    ensures
        enumeration(seq![], datagrams, names) matches Some(g) && sorted_names(g) && (forall|i: int|
            0 <= i < g.len() ==> (#[trigger] g[i]).1 == addrs_for(
                named_prefix(datagrams, names, (k + 1) as nat),
                g[i].0,
            )) && (forall|x: Seq<u8>|
            #[trigger] has_entry(g, x) <==> has_name(
                named_prefix(datagrams, names, (k + 1) as nat),
                x,
            )),
{
    lemma_enumeration_complete(seq![], datagrams, names, k);
    lemma_grouped(named_prefix(datagrams, names, (k + 1) as nat));
}

} // verus!
