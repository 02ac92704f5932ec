use vstd::prelude::*;
use vstd::std_specs::cmp::{PartialOrdSpec, PartialOrdSpecImpl};
use vstd::std_specs::ops::{AddSpec, AddSpecImpl, MulSpecImpl, SubSpec, SubSpecImpl};
use core::cmp::Ordering;

verus! {

/// A length or an offset on a block device, counted in 512-byte sectors.
#[derive(Clone, Copy, Debug, PartialEq, Eq, Structural, Ord)]
pub struct Sector(pub u64);

/// Number of sectors in one kibibyte.
pub open spec fn sectors_per_kb() -> int { 2 }

/// Number of sectors in one mebibyte.
pub open spec fn sectors_per_mb() -> int { 2048 }

/// Number of sectors in one gibibyte.
pub open spec fn sectors_per_gb() -> int { 2097152 }

/// The value that `x` takes in a `u64` register: its residue modulo 2^64.
pub open spec fn wrap_u64(x: int) -> int { x % 0x1_0000_0000_0000_0000 }

impl Sector {
    /// `n` kibibytes.
    #[allow(non_snake_case)]
    pub fn KB(n: u64) -> (s: Sector)
        requires
            sectors_per_kb() * n <= u64::MAX,
        ensures
            s.0 == sectors_per_kb() * n,
    {
        Sector(2 * n)
    }

    /// `n` mebibytes.
    #[allow(non_snake_case)]
    pub fn MB(n: u64) -> (s: Sector)
        requires
            sectors_per_mb() * n <= u64::MAX,
        ensures
            s.0 == sectors_per_mb() * n,
    {
        let unit: u64 = 2 << 10;
        assert(unit == 2048) by (bit_vector)
            requires
                unit == 2u64 << 10u64,
        ;
        Sector(unit * n)
    }

    /// `n` gibibytes.
    #[allow(non_snake_case)]
    pub fn GB(n: u64) -> (s: Sector)
        requires
            sectors_per_gb() * n <= u64::MAX,
        ensures
            s.0 == sectors_per_gb() * n,
    {
        let unit: u64 = 2 << 20;
        assert(unit == 2097152) by (bit_vector)
            requires
                unit == 2u64 << 20u64,
        ;
        Sector(unit * n)
    }

    /// The size in bytes. The count is shifted left by nine bits, so a size
    /// beyond `u64::MAX` bytes keeps only its low 64 bits.
    pub fn bytes(&self) -> (b: u64)
        ensures
            b == wrap_u64(self.0 * 512),
            self.0 * 512 <= u64::MAX ==> b == self.0 * 512,
    {
        let x = self.0;
        assert((x << 9u64) == (x * 512) % 0x1_0000_0000_0000_0000) by (bit_vector);
        x << 9
    }

    /// The count of sectors.
    pub fn sectors(&self) -> (n: u64)
        ensures
            n == self.0,
    {
        self.0
    }
}

/// The units nest: 1024 kibibytes make a mebibyte, 1024 mebibytes make a
/// gibibyte, and a kibibyte is 1024 bytes.
pub proof fn lemma_units(n: int)
    ensures
        sectors_per_kb() * (1024 * n) == sectors_per_mb() * n,
        sectors_per_mb() * (1024 * n) == sectors_per_gb() * n,
        sectors_per_kb() * n * 512 == 1024 * n,
{
}

/// Subtracting what was added gives back the first operand, and addition
/// does not depend on the order of its operands.
pub proof fn lemma_add_sub(x: Sector, y: Sector)
    requires
        x.0 + y.0 <= u64::MAX,
    ensures
        SubSpec::sub_spec(AddSpec::add_spec(x, y), y) == x,
        AddSpec::add_spec(x, y) == AddSpec::add_spec(y, x),
        SubSpec::sub_req(AddSpec::add_spec(x, y), y),
{
}

impl core::ops::Add for Sector {
    type Output = Sector;

    fn add(self, other: Sector) -> (s: Sector) {
        Sector(self.0 + other.0)
    }
}

impl AddSpecImpl for Sector {
    open spec fn obeys_add_spec() -> bool {
        true
    }

    open spec fn add_req(self, rhs: Sector) -> bool {
        self.0 + rhs.0 <= u64::MAX
    }

    open spec fn add_spec(self, rhs: Sector) -> Sector {
        Sector((self.0 + rhs.0) as u64)
    }
}

impl core::ops::Sub for Sector {
    type Output = Sector;

    fn sub(self, other: Sector) -> (s: Sector) {
        Sector(self.0 - other.0)
    }
}

impl SubSpecImpl for Sector {
    open spec fn obeys_sub_spec() -> bool {
        true
    }

    open spec fn sub_req(self, rhs: Sector) -> bool {
        rhs.0 <= self.0
    }

    open spec fn sub_spec(self, rhs: Sector) -> Sector {
        Sector((self.0 - rhs.0) as u64)
    }
}

impl core::ops::Mul<u64> for Sector {
    type Output = Sector;

    fn mul(self, rhs: u64) -> (s: Sector) {
        Sector(self.0 * rhs)
    }
}

impl MulSpecImpl<u64> for Sector {
    open spec fn obeys_mul_spec() -> bool {
        true
    }

    open spec fn mul_req(self, rhs: u64) -> bool {
        self.0 * rhs <= u64::MAX
    }

    open spec fn mul_spec(self, rhs: u64) -> Sector {
        Sector((self.0 * rhs) as u64)
    }
}

impl PartialOrd for Sector {
    fn partial_cmp(&self, other: &Sector) -> (r: Option<Ordering>)
        ensures
            self.0 < other.0 ==> r == Some(Ordering::Less),
            self.0 == other.0 ==> r == Some(Ordering::Equal),
            self.0 > other.0 ==> r == Some(Ordering::Greater),
    {
        if self.0 < other.0 {
            Some(Ordering::Less)
        } else if self.0 == other.0 {
            Some(Ordering::Equal)
        } else {
            Some(Ordering::Greater)
        }
    }
}

impl PartialOrdSpecImpl for Sector {
    open spec fn obeys_partial_cmp_spec() -> bool {
        true
    }

    open spec fn partial_cmp_spec(&self, other: &Sector) -> Option<Ordering> {
        if self.0 < other.0 {
            Some(Ordering::Less)
        } else if self.0 == other.0 {
            Some(Ordering::Equal)
        } else {
            Some(Ordering::Greater)
        }
    }
}

/// Sectors compare as their counts do: the answer is `Less`, `Equal` or
/// `Greater` exactly when the first count is below, equal to or above the
/// second, and it is never `None`.
pub proof fn lemma_sector_order(a: Sector, b: Sector)
    ensures
        (PartialOrdSpec::partial_cmp_spec(&a, &b) == Some(Ordering::Less)) <==> a.0 < b.0,
        (PartialOrdSpec::partial_cmp_spec(&a, &b) == Some(Ordering::Equal)) <==> a.0 == b.0,
        (PartialOrdSpec::partial_cmp_spec(&a, &b) == Some(Ordering::Greater)) <==> a.0 > b.0,
        PartialOrdSpec::partial_cmp_spec(&a, &b) is Some,
{
}

} // verus!
