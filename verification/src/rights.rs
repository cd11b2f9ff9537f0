//! The rights mask carried by every handle. Rights are the single vocabulary
//! that governs what a holder may do with an object; the one invariant is that
//! rights only ever narrow: a duplicate, transfer or replacement may drop bits
//! but never add them.
//!
//! Bit positions are ABI: stable, never renumbered, extended only by adding
//! new bits.
use vstd::prelude::*;

verus! {

/// A set of rights, as a bitmask. Bit positions are stable ABI.
#[derive(Clone, Copy, PartialEq, Eq, Hash, Debug, Structural)]
pub struct Rights(pub u64);

impl View for Rights {
    type V = u64;

    open spec fn view(&self) -> u64 {
        self.0
    }
}

/// Every bit of `a` is also in `b`.
pub open spec fn subset(a: u64, b: u64) -> bool {
    a & b == a
}

impl Rights {
    // Core rights, applicable to most object classes (bits 0..=10).
    pub const READ: u64 = 1 << 0;

    pub const WRITE: u64 = 1 << 1;

    pub const MAP: u64 = 1 << 2;

    pub const EXECUTE: u64 = 1 << 3;

    pub const SIGNAL: u64 = 1 << 4;

    pub const WAIT: u64 = 1 << 5;

    pub const DUPLICATE: u64 = 1 << 6;

    pub const TRANSFER: u64 = 1 << 7;

    pub const CONFIGURE: u64 = 1 << 8;

    pub const BIND: u64 = 1 << 9;

    pub const ADMIN: u64 = 1 << 10;

    // Job-class rights (bits 16..=21).
    pub const CREATE_PROCESS: u64 = 1 << 16;

    pub const CREATE_JOB: u64 = 1 << 17;

    pub const SET_POLICY: u64 = 1 << 18;

    pub const SET_LIMITS: u64 = 1 << 19;

    pub const SUSPEND: u64 = 1 << 20;

    pub const KILL: u64 = 1 << 21;

    // Pager and memory-class rights (bits 24..=26).
    pub const SUPPLY: u64 = 1 << 24;

    pub const WRITEBACK: u64 = 1 << 25;

    pub const EVICT: u64 = 1 << 26;

    // Exception-class rights (bits 28..=30).
    pub const EXCEPTION: u64 = 1 << 28;

    pub const READ_STATE: u64 = 1 << 29;

    pub const WRITE_STATE: u64 = 1 << 30;

    // Revocation-scope-class rights (bits 32..=33).
    pub const DERIVE: u64 = 1 << 32;

    pub const REVOKE: u64 = 1 << 33;

    // Power-class rights (bits 36..=37).
    /// Register a device's interrupt as a system wakeup source, and hold a
    /// wake hold against the power object. Not implied by holding a device.
    pub const WAKE: u64 = 1 << 36;

    /// Commit the system to sleep.
    pub const SLEEP: u64 = 1 << 37;

    /// Load a firmware image into this device. Not implied by holding the
    /// device: it belongs to whatever mediates loading.
    pub const FIRMWARE: u64 = 1 << 38;

    /// Expose memory on the protected handling path to this device. A right
    /// of the device, not of whoever holds the memory.
    pub const PROTECTED_DMA: u64 = 1 << 39;

    /// The empty set.
    pub fn none() -> (r: Rights)
        ensures
            r@ == 0,
    {
        Rights(0)
    }

    /// All eleven core rights.
    pub fn all_core() -> (r: Rights)
        ensures
            r@ == 0x7ff,
    {
        Rights(0x7ff)
    }

    /// Wraps a raw mask (for example one decoded from the wire). Unknown bits
    /// are preserved; callers reduce against a known set as needed.
    pub fn from_bits(bits: u64) -> (r: Rights)
        ensures
            r@ == bits,
    {
        Rights(bits)
    }

    /// The raw mask.
    pub fn bits(self) -> (b: u64)
        ensures
            b == self@,
    {
        self.0
    }

    /// Whether the set is empty.
    pub fn is_empty(self) -> (b: bool)
        ensures
            b == (self@ == 0),
    {
        self.0 == 0
    }

    /// The union of two rights sets.
    pub fn union(self, other: Rights) -> (r: Rights)
        ensures
            r@ == self@ | other@,
    {
        Rights(self.0 | other.0)
    }

    /// The intersection of two rights sets: the reduction used when narrowing.
    pub fn intersection(self, other: Rights) -> (r: Rights)
        ensures
            r@ == self@ & other@,
    {
        Rights(self.0 & other.0)
    }

    /// True if `self` includes every right in `other`.
    pub fn contains(self, other: Rights) -> (b: bool)
        ensures
            b == subset(other@, self@),
    {
        proof {
            let x = self.0;
            let y = other.0;
            assert(x & y == y & x) by (bit_vector);
        }
        self.0 & other.0 == other.0
    }

    /// True if every right in `self` is also in `other`: the never-expand
    /// check. A narrowed set must be a subset of the one it came from.
    pub fn is_subset_of(self, other: Rights) -> (b: bool)
        ensures
            b == subset(self@, other@),
    {
        self.0 & other.0 == self.0
    }
}

impl core::ops::BitOr for Rights {
    type Output = Rights;

    fn bitor(self, rhs: Rights) -> (r: Rights) {
        self.union(rhs)
    }
}

impl vstd::std_specs::ops::BitOrSpecImpl for Rights {
    open spec fn obeys_bitor_spec() -> bool {
        true
    }

    open spec fn bitor_req(self, rhs: Rights) -> bool {
        true
    }

    open spec fn bitor_spec(self, rhs: Rights) -> Rights {
        Rights(self.0 | rhs.0)
    }
}

impl core::ops::BitAnd for Rights {
    type Output = Rights;

    fn bitand(self, rhs: Rights) -> (r: Rights) {
        self.intersection(rhs)
    }
}

impl vstd::std_specs::ops::BitAndSpecImpl for Rights {
    open spec fn obeys_bitand_spec() -> bool {
        true
    }

    open spec fn bitand_req(self, rhs: Rights) -> bool {
        true
    }

    open spec fn bitand_spec(self, rhs: Rights) -> Rights {
        Rights(self.0 & rhs.0)
    }
}

/// Whether `rights` holds the single right at bit position `position`.
pub open spec fn holds(rights: u64, position: u64) -> bool {
    rights & (1u64 << position) != 0
}

/// Containment is membership bit by bit: one mask is a subset of another
/// exactly when every right it holds is held by the other.
pub proof fn law_subset_is_bitwise(a: u64, b: u64)
    ensures
        subset(a, b) <==> forall|i: u64| i < 64 && #[trigger] holds(a, i) ==> holds(b, i),
{
    if subset(a, b) {
        assert forall|i: u64| i < 64 && #[trigger] holds(a, i) implies holds(b, i) by {
            assert(b & (1u64 << i) != 0) by (bit_vector)
                requires
                    i < 64,
                    a & b == a,
                    a & (1u64 << i) != 0,
            ;
        }
    } else {
        lemma_witness(a, b, 64);
    }
}

/// A mask that is not a subset has a right below `n` that the other lacks, or
/// differs only at or above `n`.
proof fn lemma_witness(a: u64, b: u64, n: u64)
    requires
        n <= 64,
        !subset(a, b),
        forall|i: u64| n <= i < 64 && #[trigger] holds(a, i) ==> holds(b, i),
    ensures
        exists|i: u64| i < n && #[trigger] holds(a, i) && !holds(b, i),
    decreases n,
{
    if n == 0 {
        let c = a & !b;
        assert(a & !b != 0) by (bit_vector)
            requires
                a & b != a,
        ;
        lemma_some_bit(c, 64);
        let i = choose|i: u64| i < 64 && #[trigger] holds(c, i);
        assert(a & (1u64 << i) != 0 && b & (1u64 << i) == 0) by (bit_vector)
            requires
                i < 64,
                c == a & !b,
                c & (1u64 << i) != 0,
        ;
        assert(holds(a, i) && !holds(b, i));
    } else {
        let i = (n - 1) as u64;
        if !(holds(a, i) && !holds(b, i)) {
            lemma_witness(a, b, i);
        }
    }
}

/// A mask with a nonzero part below bit `n` holds some right below `n`.
proof fn lemma_some_bit(c: u64, n: u64)
    requires
        n <= 64,
        c != 0,
        n < 64 ==> c >> n == 0,
    ensures
        exists|i: u64| i < n && #[trigger] holds(c, i),
    decreases n,
{
    if n == 0 {
        assert(c == 0) by (bit_vector)
            requires
                c >> 0u64 == 0,
        ;
    } else {
        let i = (n - 1) as u64;
        if !holds(c, i) {
            assert(c >> i == 0) by (bit_vector)
                requires
                    i < 64,
                    n == i + 1,
                    1 <= n <= 64,
                    n < 64 ==> c >> n == 0,
                    c & (1u64 << i) == 0,
            ;
            lemma_some_bit(c, i);
        }
    }
}

/// Narrowing composes: a subset of a subset is a subset, so no chain of
/// duplications, replacements and transfers ever gains a right.
pub proof fn law_narrowing_composes(a: Rights, b: Rights, c: Rights)
    requires
        subset(a@, b@),
        subset(b@, c@),
    ensures
        subset(a@, c@),
{
    let x = a@;
    let y = b@;
    let z = c@;
    assert(x & z == x) by (bit_vector)
        requires
            x & y == x,
            y & z == y,
    ;
}

} // verus!
