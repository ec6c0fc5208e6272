//! The host name.

use vstd::prelude::*;
use vstd::string::StringSliceAdditionalSpecFns;

use crate::registry::{compare_names, name_lt};
use crate::text::{all_ascii, same_ascii, lemma_first_zero_bounds, until_zero, utf8_decode, utf8_str, zero_end};

verus! {

/// Capacity of a host name.
pub const MAX_SIZE: usize = 255;

/// Host name, of at most 255 bytes.
///
/// It is commonly valid UTF-8, but need not be: `as_bytes` gives the bytes whatever they
/// are, `as_str` the text where they are valid UTF-8.
#[derive(Clone, Copy)]
pub struct HostName {
    name: [u8; MAX_SIZE],
}

impl View for HostName {
    type V = Seq<u8>;

    /// The name: the stored bytes up to the first zero byte.
    closed spec fn view(&self) -> Seq<u8> {
        until_zero(self.name@)
    }
}

/// The stored form of name bytes: the first bytes, zero-filled, cut at the capacity.
pub open spec fn stored_name(bytes: Seq<u8>) -> Seq<u8> {
    Seq::new(MAX_SIZE as nat, |i: int| if i < bytes.len() { bytes[i] } else { 0u8 })
}

/// Relies on `nix::unistd::gethostname`: the host name's bytes without the terminating
/// zero, or nothing when the system call fails. What it returns depends on the system.
#[verifier::external_body]
fn system_host_name() -> (r: Option<Vec<u8>>) {
    nix::unistd::gethostname().ok().map(|n| n.into_encoded_bytes())
}

impl HostName {
    /// Creates an empty name.
    pub fn new() -> (r: HostName)
        ensures
            r@ == Seq::<u8>::empty(),
    {
        let r = HostName { name: [0u8; MAX_SIZE] };
        assert(r.name@[0] == 0);
        r
    }

    /// Returns the size limit of a host name.
    pub fn capacity() -> (r: usize)
        ensures
            r == MAX_SIZE,
    {
        MAX_SIZE
    }

    /// Creates a name from a buffer; the name ends at the buffer's first zero byte.
    pub fn name(name: [u8; MAX_SIZE]) -> (r: HostName)
        ensures
            r@ == until_zero(name@),
    {
        HostName { name }
    }

    /// Creates a name from its bytes, keeping at most the first 255.
    pub fn from_bytes(bytes: &[u8]) -> (r: HostName)
        ensures
            r@ == until_zero(stored_name(bytes@)),
            r@.len() <= MAX_SIZE,
    {
        let mut name: [u8; MAX_SIZE] = [0u8; MAX_SIZE];
        let mut i: usize = 0;
        while i < MAX_SIZE
            invariant
                0 <= i <= MAX_SIZE,
                forall|j: int| 0 <= j < i ==> name[j] == (if j < bytes@.len() { bytes@[j] } else { 0u8 }),
                forall|j: int| i <= j < MAX_SIZE ==> name[j] == 0,
            decreases MAX_SIZE - i,
        {
            if i < bytes.len() {
                name[i] = bytes[i];
            }
            i = i + 1;
        }
        assert(name@ =~= stored_name(bytes@));
        proof {
            lemma_first_zero_bounds(name@, 0);
        }
        HostName { name }
    }

    /// Returns the name as bytes.
    pub fn as_bytes(&self) -> (r: &[u8])
        ensures
            r@ == self@,
    {
        let n = zero_end(self.name.as_slice());
        vstd::slice::slice_subrange(self.name.as_slice(), 0, n)
    }

    /// Returns the name as text when it is valid UTF-8, else its bytes.
    pub fn as_str(&self) -> (r: Result<&str, &[u8]>)
        ensures
            r.is_ok() ==> utf8_decode(self@) == Some(r->Ok_0@) && r->Ok_0.spec_bytes() == self@,
            r.is_err() ==> utf8_decode(self@).is_none() && r->Err_0@ == self@,
            all_ascii(self@) ==> r.is_ok() && same_ascii(r->Ok_0@, self@),
    {
        let bytes = self.as_bytes();
        match utf8_str(bytes) {
            Some(s) => Ok(s),
            None => Err(bytes),
        }
    }

    /// Retrieves the host's name; nothing when the system cannot give it.
    pub fn get() -> (r: Option<HostName>)
        ensures
            r.is_some() ==> r.unwrap()@.len() <= MAX_SIZE,
    {
        match system_host_name() {
            Some(bytes) => Some(HostName::from_bytes(bytes.as_slice())),
            None => None,
        }
    }
}

impl PartialEq for HostName {
    /// Two names are equal when their bytes are.
    fn eq(&self, other: &HostName) -> (r: bool) {
        let n = zero_end(self.name.as_slice());
        let m = zero_end(other.name.as_slice());
        compare_names(self.name.as_slice(), n, other.name.as_slice(), m) == 0
    }
}

impl vstd::std_specs::cmp::PartialEqSpecImpl for HostName {
    open spec fn obeys_eq_spec() -> bool {
        true
    }

    open spec fn eq_spec(&self, other: &HostName) -> bool {
        self@ == other@
    }
}

impl Eq for HostName {}

impl PartialEq<[u8]> for HostName {
    /// A name equals the bytes that it consists of.
    fn eq(&self, other: &[u8]) -> (r: bool) {
        let n = zero_end(self.name.as_slice());
        assert(other@.take(other@.len() as int) =~= other@);
        compare_names(self.name.as_slice(), n, other, other.len()) == 0
    }
}

impl vstd::std_specs::cmp::PartialEqSpecImpl<[u8]> for HostName {
    open spec fn obeys_eq_spec() -> bool {
        true
    }

    open spec fn eq_spec(&self, other: &[u8]) -> bool {
        self@ == other@
    }
}

impl PartialEq<str> for HostName {
    /// A name equals a text whose bytes it consists of.
    fn eq(&self, other: &str) -> (r: bool) {
        let b = other.as_bytes();
        let n = zero_end(self.name.as_slice());
        assert(b@.take(b@.len() as int) =~= b@);
        compare_names(self.name.as_slice(), n, b, b.len()) == 0
    }
}

impl vstd::std_specs::cmp::PartialEqSpecImpl<str> for HostName {
    open spec fn obeys_eq_spec() -> bool {
        true
    }

    open spec fn eq_spec(&self, other: &str) -> bool {
        self@ == other.spec_bytes()
    }
}

impl PartialEq<HostName> for [u8] {
    /// Bytes equal a name that consists of them.
    fn eq(&self, other: &HostName) -> (r: bool) {
        other.eq(self)
    }
}

impl vstd::std_specs::cmp::PartialEqSpecImpl<HostName> for [u8] {
    open spec fn obeys_eq_spec() -> bool {
        true
    }

    open spec fn eq_spec(&self, other: &HostName) -> bool {
        self@ == other@
    }
}

impl PartialEq<HostName> for str {
    /// A text equals a name that consists of its bytes.
    fn eq(&self, other: &HostName) -> (r: bool) {
        other.eq(self)
    }
}

impl vstd::std_specs::cmp::PartialEqSpecImpl<HostName> for str {
    open spec fn obeys_eq_spec() -> bool {
        true
    }

    open spec fn eq_spec(&self, other: &HostName) -> bool {
        self.spec_bytes() == other@
    }
}

impl PartialOrd for HostName {
    /// Names are ordered by their bytes: the first differing byte decides, and a proper
    /// prefix comes first.
    fn partial_cmp(&self, other: &HostName) -> (r: Option<core::cmp::Ordering>) {
        let n = zero_end(self.name.as_slice());
        let m = zero_end(other.name.as_slice());
        let c = compare_names(self.name.as_slice(), n, other.name.as_slice(), m);
        if c < 0 {
            Some(core::cmp::Ordering::Less)
        } else if c == 0 {
            Some(core::cmp::Ordering::Equal)
        } else {
            Some(core::cmp::Ordering::Greater)
        }
    }
}

impl vstd::std_specs::cmp::PartialOrdSpecImpl for HostName {
    open spec fn obeys_partial_cmp_spec() -> bool {
        true
    }

    open spec fn partial_cmp_spec(&self, other: &HostName) -> Option<core::cmp::Ordering> {
        if name_lt(self@, other@) {
            Some(core::cmp::Ordering::Less)
        } else if self@ == other@ {
            Some(core::cmp::Ordering::Equal)
        } else {
            Some(core::cmp::Ordering::Greater)
        }
    }
}

impl AsRef<[u8]> for HostName {
    fn as_ref(&self) -> &[u8] {
        self.as_bytes()
    }
}

impl core::borrow::Borrow<[u8]> for HostName {
    fn borrow(&self) -> &[u8] {
        self.as_bytes()
    }
}

} // verus!
