use vstd::prelude::*;

verus! {

/// The interface-name field of a request that attaches a TAP interface:
/// at most the first 15 bytes of `name`, then zeros up to 16 bytes.
pub open spec fn tap_name_field(name: Seq<u8>) -> Seq<u8> {
    let n: int = if name.len() < 15 {
        name.len() as int
    } else {
        15
    };
    name.take(n) + Seq::new((16 - n) as nat, |i: int| 0u8)
}

/// The interface-name field of the request for the TAP interface `name`
/// (see `tap_name_field`).
pub fn tap_request_name(name: &[u8]) -> (r: [u8; 16])
    ensures
        r@ == tap_name_field(name@),
{
    let mut r = [0u8; 16];
    let n: usize = if name.len() < 15 {
        name.len()
    } else {
        15
    };
    let mut i: usize = 0;
    while i < n
        invariant
            i <= n,
            n <= 15,
            n <= name@.len(),
            r@.len() == 16,
            forall|j: int| 0 <= j < i ==> r@[j] == name@[j],
            forall|j: int| i <= j < 16 ==> r@[j] == 0,
        decreases n - i,
    {
        r[i] = name[i];
        i = i + 1;
    }
    assert(r@ =~= tap_name_field(name@));
    r
}

/// The flags of that request: a TAP interface (0x0002) that hands frames
/// over without a packet-information header (0x1000).
pub fn tap_flags() -> (r: u16)
    ensures
        r == 0x1002,
{
    let r: u16 = 0x0002u16 | 0x1000u16;
    assert(0x0002u16 | 0x1000u16 == 0x1002u16) by (bit_vector);
    r
}

} // verus!
