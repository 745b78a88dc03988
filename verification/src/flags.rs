use vstd::prelude::*;

verus! {

/// The control bits of a TCP header, kept as the byte that carries them.
#[derive(Debug, Clone, Copy, PartialEq, Eq, Structural)]
pub struct TcpFlags {
    pub bits: u8,
}

/// Whether every bit of `f` is set in `bits`.
pub open spec fn has_bits(bits: u8, f: u8) -> bool {
    bits & f == f
}

impl TcpFlags {
    /// The FIN flag alone.
    pub fn fin() -> (r: TcpFlags)
        ensures
            r.bits == 0x01,
    {
        TcpFlags { bits: 0x01 }
    }

    /// The SYN flag alone.
    pub fn syn() -> (r: TcpFlags)
        ensures
            r.bits == 0x02,
    {
        TcpFlags { bits: 0x02 }
    }

    /// The RST flag alone.
    pub fn rst() -> (r: TcpFlags)
        ensures
            r.bits == 0x04,
    {
        TcpFlags { bits: 0x04 }
    }

    /// The PSH flag alone.
    pub fn psh() -> (r: TcpFlags)
        ensures
            r.bits == 0x08,
    {
        TcpFlags { bits: 0x08 }
    }

    /// The ACK flag alone.
    pub fn ack() -> (r: TcpFlags)
        ensures
            r.bits == 0x10,
    {
        TcpFlags { bits: 0x10 }
    }

    /// The URG flag alone.
    pub fn urg() -> (r: TcpFlags)
        ensures
            r.bits == 0x20,
    {
        TcpFlags { bits: 0x20 }
    }

    /// The flags whose bits are `bits`, unknown bits kept.
    pub fn from_bits_retain(bits: u8) -> (r: TcpFlags)
        ensures
            r.bits == bits,
    {
        TcpFlags { bits }
    }

    /// The byte that carries the flags.
    pub fn bits(&self) -> (r: u8)
        ensures
            r == self.bits,
    {
        self.bits
    }

    /// Whether every flag of `other` is set here.
    pub fn contains(&self, other: TcpFlags) -> (r: bool)
        ensures
            r == has_bits(self.bits, other.bits),
    {
        (self.bits & other.bits) == other.bits
    }

    /// The flags set here or in `other`.
    pub fn union(self, other: TcpFlags) -> (r: TcpFlags)
        ensures
            r.bits == self.bits | other.bits,
    {
        TcpFlags { bits: self.bits | other.bits }
    }

    /// Sets the flags of `other` here too.
    pub fn insert(&mut self, other: TcpFlags)
        ensures
            final(self).bits == old(self).bits | other.bits,
    {
        self.bits = self.bits | other.bits;
    }
}

} // verus!
