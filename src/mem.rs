//! Memory information.

use vstd::prelude::*;

verus! {

/// Memory information.
pub struct SystemMemory {
    /// Total memory in bytes.
    pub total: u64,
    /// Available memory in bytes.
    pub avail: u64,
}

/// Relies on `nix::unistd::sysconf` for the number of physical memory pages: nothing when
/// the system does not give it. What it returns depends on the system.
#[verifier::external_body]
fn physical_pages() -> (r: Option<i64>) {
    nix::unistd::sysconf(nix::unistd::SysconfVar::_PHYS_PAGES).ok().flatten().map(|v| v as i64)
}

/// Relies on `nix::unistd::sysconf` for the number of available memory pages: nothing
/// when the system does not give it. What it returns depends on the system.
#[verifier::external_body]
fn available_pages() -> (r: Option<i64>) {
    nix::unistd::sysconf(nix::unistd::SysconfVar::_AVPHYS_PAGES).ok().flatten().map(|v| v as i64)
}

/// Relies on `nix::unistd::sysconf` for the page size in bytes: nothing when the system
/// does not give it. What it returns depends on the system.
#[verifier::external_body]
fn page_size() -> (r: Option<i64>) {
    nix::unistd::sysconf(nix::unistd::SysconfVar::PAGE_SIZE).ok().flatten().map(|v| v as i64)
}

/// `a * b`, or `u64::MAX` where the product does not fit.
pub open spec fn saturating_product(a: u64, b: u64) -> u64 {
    if a * b > u64::MAX {
        u64::MAX
    } else {
        (a * b) as u64
    }
}

/// Whether a system value is present and not negative.
pub open spec fn usable(v: Option<i64>) -> bool {
    v.is_some() && v.unwrap() >= 0
}

fn saturating_mul(a: u64, b: u64) -> (r: u64)
    ensures
        r == saturating_product(a, b),
{
    match a.checked_mul(b) {
        Some(p) => p,
        None => u64::MAX,
    }
}

impl SystemMemory {
    /// Memory from page counts and the page size: each count times the page size,
    /// saturating; all zero when any of the three is missing or negative.
    pub fn from_pages(total_pages: Option<i64>, avail_pages: Option<i64>, page_size: Option<i64>) -> (r: SystemMemory)
        ensures
            usable(total_pages) && usable(avail_pages) && usable(page_size) ==> r.total
                == saturating_product(total_pages.unwrap() as u64, page_size.unwrap() as u64)
                && r.avail == saturating_product(avail_pages.unwrap() as u64, page_size.unwrap() as u64),
            !(usable(total_pages) && usable(avail_pages) && usable(page_size)) ==> r.total == 0
                && r.avail == 0,
    {
        match (total_pages, avail_pages, page_size) {
            (Some(t), Some(a), Some(s)) => {
                if t < 0 || a < 0 || s < 0 {
                    SystemMemory { total: 0, avail: 0 }
                } else {
                    SystemMemory {
                        total: saturating_mul(t as u64, s as u64),
                        avail: saturating_mul(a as u64, s as u64),
                    }
                }
            },
            _ => SystemMemory { total: 0, avail: 0 },
        }
    }

    /// Fetches the system's memory; all zero when the system cannot give it.
    pub fn new() -> (r: SystemMemory) {
        SystemMemory::from_pages(physical_pages(), available_pages(), page_size())
    }
}

} // verus!
