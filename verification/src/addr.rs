use vstd::prelude::*;

verus! {

/// An Ethernet hardware address.
#[derive(Debug, Clone, Copy)]
pub struct MacAddress(pub [u8; 6]);

/// An IPv4 address, octets in network order.
#[derive(Debug, Clone, Copy)]
pub struct Ipv4Address(pub [u8; 4]);

/// The four numbers that name one TCP connection.
#[derive(Debug, Clone, Copy)]
pub struct SocketTuple {
    pub local_ip: Ipv4Address,
    pub local_port: u16,
    pub remote_ip: Ipv4Address,
    pub remote_port: u16,
}

/// The broadcast hardware address, all ones.
pub open spec fn broadcast_mac_spec() -> MacAddress {
    MacAddress([0xffu8, 0xff, 0xff, 0xff, 0xff, 0xff])
}

pub fn broadcast_mac() -> (m: MacAddress)
    ensures
        m == broadcast_mac_spec(),
{
    MacAddress([0xff, 0xff, 0xff, 0xff, 0xff, 0xff])
}

impl MacAddress {
    /// The bytes of the address, in the order they stand on the wire.
    pub open spec fn bytes(self) -> Seq<u8> {
        self.0@
    }
}

impl Ipv4Address {
    /// The bytes of the address, in the order they stand on the wire.
    pub open spec fn bytes(self) -> Seq<u8> {
        self.0@
    }

    /// The address read as one big-endian 32-bit number.
    pub open spec fn key(self) -> u32 {
        (self.0[0] as int * 0x1000000 + self.0[1] as int * 0x10000 + self.0[2] as int * 0x100
            + self.0[3] as int) as u32
    }

    /// The address read as one big-endian 32-bit number.
    pub fn to_key(&self) -> (k: u32)
        ensures
            k == self.key(),
    {
        (self.0[0] as u32) * 0x1000000 + (self.0[1] as u32) * 0x10000 + (self.0[2] as u32) * 0x100
            + (self.0[3] as u32)
    }
}

proof fn lemma_arrays_equal<const N: usize>(a: [u8; N], b: [u8; N])
    requires
        forall|i: int| 0 <= i < N ==> a[i] == b[i],
    ensures
        a == b,
{
    broadcast use vstd::array::group_array_axioms;

    assert(a@ =~= b@);
}

impl PartialEq for MacAddress {
    fn eq(&self, other: &Self) -> (r: bool) {
        let r = self.0[0] == other.0[0] && self.0[1] == other.0[1] && self.0[2] == other.0[2]
            && self.0[3] == other.0[3] && self.0[4] == other.0[4] && self.0[5] == other.0[5];
        proof {
            if r {
                lemma_arrays_equal(self.0, other.0);
            }
        }
        r
    }
}

impl vstd::std_specs::cmp::PartialEqSpecImpl for MacAddress {
    open spec fn obeys_eq_spec() -> bool {
        true
    }

    open spec fn eq_spec(&self, other: &MacAddress) -> bool {
        *self == *other
    }
}

impl Eq for MacAddress {

}

impl PartialEq for Ipv4Address {
    fn eq(&self, other: &Self) -> (r: bool) {
        let r = self.0[0] == other.0[0] && self.0[1] == other.0[1] && self.0[2] == other.0[2]
            && self.0[3] == other.0[3];
        proof {
            if r {
                lemma_arrays_equal(self.0, other.0);
            }
        }
        r
    }
}

impl vstd::std_specs::cmp::PartialEqSpecImpl for Ipv4Address {
    open spec fn obeys_eq_spec() -> bool {
        true
    }

    open spec fn eq_spec(&self, other: &Ipv4Address) -> bool {
        *self == *other
    }
}

impl Eq for Ipv4Address {

}

impl PartialEq for SocketTuple {
    fn eq(&self, other: &Self) -> (r: bool) {
        self.local_ip == other.local_ip && self.local_port == other.local_port && self.remote_ip
            == other.remote_ip && self.remote_port == other.remote_port
    }
}

impl vstd::std_specs::cmp::PartialEqSpecImpl for SocketTuple {
    open spec fn obeys_eq_spec() -> bool {
        true
    }

    open spec fn eq_spec(&self, other: &SocketTuple) -> bool {
        *self == *other
    }
}

impl Eq for SocketTuple {

}

} // verus!
