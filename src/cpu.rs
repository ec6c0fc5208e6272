//! Processor count.

use vstd::prelude::*;

use nix::sched::CpuSet;

verus! {

#[verifier::external_type_specification]
#[verifier::external_body]
pub struct ExCpuSet(nix::sched::CpuSet);

/// The processors that a `CpuSet` holds.
pub uninterp spec fn cpu_members(s: CpuSet) -> Set<usize>;

/// Relies on `nix::sched::sched_getaffinity` for the calling thread: the processors it
/// may run on, or nothing when the call fails.
#[verifier::external_body]
fn affinity() -> (r: Option<CpuSet>) {
    nix::sched::sched_getaffinity(nix::unistd::Pid::from_raw(0)).ok()
}

/// Relies on `nix::sched::CpuSet::count`: the number of processor slots of a set.
#[verifier::external_body]
fn cpu_set_slots() -> (r: usize) {
    CpuSet::count()
}

/// Relies on `nix::sched::CpuSet::is_set`: whether the set holds processor `i` (an error,
/// for a slot past the set's end, holds none).
#[verifier::external_body]
fn cpu_is_set(s: &CpuSet, i: usize) -> (r: bool)
    ensures
        r == cpu_members(*s).contains(i),
{
    s.is_set(i).unwrap_or(false)
}

/// Relies on `nix::unistd::sysconf` for the number of processors online: nothing when
/// the system does not give it.
#[verifier::external_body]
fn online_processors() -> (r: Option<i64>) {
    nix::unistd::sysconf(nix::unistd::SysconfVar::_NPROCESSORS_ONLN).ok().flatten().map(|v| v as i64)
}

/// How many of the processors `0..n` the set `m` holds.
pub open spec fn count_members(m: Set<usize>, n: nat) -> nat
    decreases n,
{
    if n == 0 {
        0
    } else {
        count_members(m, (n - 1) as nat) + if m.contains((n - 1) as usize) {
            1nat
        } else {
            0nat
        }
    }
}

/// Counts the processors `0..n` that a set holds.
pub fn count_set(s: &CpuSet, n: usize) -> (r: usize)
    ensures
        r == count_members(cpu_members(*s), n as nat),
{
    let mut c: usize = 0;
    let mut i: usize = 0;
    while i < n
        invariant
            0 <= i <= n,
            c == count_members(cpu_members(*s), i as nat),
            c <= i,
        decreases n - i,
    {
        if cpu_is_set(s, i) {
            c = c + 1;
        }
        i = i + 1;
    }
    c
}

/// The processor count: the affinity count when it is not zero, else the number of
/// processors online when that is positive and fits, else zero.
pub open spec fn count_of(affinity_count: usize, online: Option<i64>) -> usize {
    if affinity_count > 0 {
        affinity_count
    } else if online.is_some() && online.unwrap() > 0 && online.unwrap() <= usize::MAX {
        online.unwrap() as usize
    } else {
        0
    }
}

/// Picks the processor count from the affinity count and the number online.
pub fn choose_count(affinity_count: usize, online: Option<i64>) -> (r: usize)
    ensures
        r == count_of(affinity_count, online),
{
    if affinity_count > 0 {
        affinity_count
    } else {
        match online {
            Some(v) => {
                if v > 0 && (v as u64) <= (usize::MAX as u64) {
                    v as usize
                } else {
                    0
                }
            },
            None => 0,
        }
    }
}

/// Returns the number of processors the calling thread may run on, as reported by the
/// system; the number online where that is not known.
pub fn count() -> (r: usize) {
    let from_affinity = match affinity() {
        Some(set) => count_set(&set, cpu_set_slots()),
        None => 0,
    };
    choose_count(from_affinity, online_processors())
}

} // verus!
