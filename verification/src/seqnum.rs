use vstd::prelude::*;

verus! {

/// A TCP sequence number: a point on a circle of 2^32 values.
#[derive(Debug, Clone, Copy, PartialEq, Eq, Structural, PartialOrd, Ord, Hash)]
pub struct SeqNum(pub u32);

/// The number of values a sequence number can take.
pub open spec fn seq_modulus() -> int {
    0x1_0000_0000
}

/// `a + n` on the circle of sequence numbers.
pub open spec fn seq_add(a: u32, n: u32) -> u32 {
    ((a as int + n as int) % seq_modulus()) as u32
}

/// The distance from `b` forward to `a` on the circle.
pub open spec fn seq_diff(a: u32, b: u32) -> u32 {
    ((a as int - b as int) % seq_modulus()) as u32
}

/// `a` comes before `b`: the signed 32-bit reading of `a - b` is negative,
/// that is, `a - b` taken on the circle is at least 2^31.
pub open spec fn seq_lt(a: u32, b: u32) -> bool {
    seq_diff(a, b) >= 0x8000_0000
}

/// `a` is `b` or comes before it.
pub open spec fn seq_lte(a: u32, b: u32) -> bool {
    a == b || seq_lt(a, b)
}

impl SeqNum {
    /// The sequence number `val` steps after this one.
    pub fn wrapping_add(self, val: u32) -> (r: SeqNum)
        ensures
            r.0 == seq_add(self.0, val),
    {
        SeqNum(self.0.wrapping_add(val))
    }

    /// How many steps `val` lies before this sequence number.
    pub fn wrapping_sub(self, val: SeqNum) -> (r: u32)
        ensures
            r == seq_diff(self.0, val.0),
    {
        self.0.wrapping_sub(val.0)
    }

    /// Whether this sequence number comes before `other`.
    pub fn lt(self, other: SeqNum) -> (r: bool)
        ensures
            r == seq_lt(self.0, other.0),
    {
        self.0.wrapping_sub(other.0) >= 0x8000_0000
    }

    /// Whether this sequence number is `other` or comes before it.
    pub fn lte(self, other: SeqNum) -> (r: bool)
        ensures
            r == seq_lte(self.0, other.0),
    {
        self == other || self.lt(other)
    }
}

/// Going `n` steps forward and measuring the distance back gives `n`.
pub proof fn law_add_then_diff(a: u32, n: u32)
    ensures
        seq_diff(seq_add(a, n), a) == n,
{
}

/// Going forward by the distance from `a` to `b` lands on `b`.
pub proof fn law_diff_then_add(a: u32, b: u32)
    ensures
        seq_add(a, seq_diff(b, a)) == b,
{
}

/// No sequence number comes before itself; each is `lte` itself.
pub proof fn law_lt_irreflexive(a: u32)
    ensures
        !seq_lt(a, a),
        seq_lte(a, a),
{
}

/// A number comes before every number from one to 2^31 steps after it.
pub proof fn law_lt_forward(a: u32, n: u32)
    requires
        1 <= n <= 0x8000_0000,
    ensures
        seq_lt(a, seq_add(a, n)),
{
}

/// Of two distinct numbers that are not exactly 2^31 apart, exactly one comes
/// before the other.
pub proof fn law_lt_total_asymmetric(a: u32, b: u32)
    requires
        a != b,
        seq_diff(a, b) != 0x8000_0000,
    ensures
        seq_lt(a, b) != seq_lt(b, a),
{
}

} // verus!
