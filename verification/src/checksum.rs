use vstd::prelude::*;
use crate::addr::Ipv4Address;

verus! {

/// The sum of the 16-bit big-endian words of `s`; an odd last byte counts as
/// the high byte of a word whose low byte is zero.
pub open spec fn words_sum(s: Seq<u8>) -> nat
    decreases s.len(),
{
    if s.len() == 0 {
        0
    } else if s.len() % 2 == 1 {
        words_sum(s.take(s.len() - 1)) + s[s.len() - 1] as nat * 256
    } else {
        words_sum(s.take(s.len() - 2)) + s[s.len() - 2] as nat * 256 + s[s.len() - 1] as nat
    }
}

/// The ones'-complement reduction of a sum to 16 bits: the end-around carries
/// added back until nothing is left above bit 15.
pub open spec fn ones_fold(x: nat) -> nat {
    if x == 0 {
        0
    } else {
        ((x - 1) % 0xFFFF + 1) as nat
    }
}

/// The Internet checksum of `s`: the complement of the ones'-complement sum of
/// its 16-bit words.
pub open spec fn checksum_spec(s: Seq<u8>) -> u16 {
    (0xFFFF - ones_fold(words_sum(s))) as u16
}

/// The bytes of `x`, most significant first.
pub open spec fn be16(x: u16) -> Seq<u8> {
    seq![(x / 256) as u8, (x % 256) as u8]
}

/// The TCP pseudo header: both addresses, a zero byte, the protocol number 6
/// and the segment length cut to 16 bits.
pub open spec fn pseudo_header(src: Ipv4Address, dst: Ipv4Address, len: nat) -> Seq<u8> {
    src.bytes() + dst.bytes() + seq![0u8, 6u8] + be16((len % 0x10000) as u16)
}

/// The TCP checksum of `seg` sent from `src` to `dst`.
pub open spec fn tcp_checksum_spec(src: Ipv4Address, dst: Ipv4Address, seg: Seq<u8>) -> u16 {
    checksum_spec(pseudo_header(src, dst, seg.len()) + seg)
}

/// Whether the 32-bit running sum of the checksum over `s` cannot overflow.
pub open spec fn checksum_fits(s: Seq<u8>) -> bool {
    words_sum(s) <= u32::MAX
}

/// The sum of a prefix that ends on a word boundary is part of the whole sum.
pub proof fn lemma_words_sum_prefix(s: Seq<u8>, k: int)
    requires
        0 <= k <= s.len(),
        k % 2 == 0 || k == s.len(),
    ensures
        words_sum(s.take(k)) <= words_sum(s),
        words_sum(s.take(k)) + words_sum(s.skip(k)) == words_sum(s),
    decreases s.len(),
{
    if k == s.len() {
        assert(s.take(k) =~= s);
        assert(s.skip(k) =~= Seq::<u8>::empty());
    } else if s.len() % 2 == 1 {
        let t = s.take(s.len() - 1);
        lemma_words_sum_prefix(t, k);
        assert(t.take(k) =~= s.take(k));
        let r = s.skip(k);
        assert(r.len() % 2 == 1);
        assert(r.take(r.len() - 1) =~= t.skip(k));
    } else {
        let t = s.take(s.len() - 2);
        lemma_words_sum_prefix(t, k);
        assert(t.take(k) =~= s.take(k));
        let r = s.skip(k);
        assert(r.len() % 2 == 0);
        assert(r.take(r.len() - 2) =~= t.skip(k));
    }
}

/// Each word is at most 0xFFFF.
pub proof fn lemma_words_sum_bound(s: Seq<u8>)
    ensures
        words_sum(s) <= 0xFFFF * ((s.len() + 1) / 2),
    decreases s.len(),
{
    if s.len() == 0 {
    } else if s.len() % 2 == 1 {
        lemma_words_sum_bound(s.take(s.len() - 1));
    } else {
        lemma_words_sum_bound(s.take(s.len() - 2));
    }
}

/// Replacing the word at an even offset changes the sum by the difference of
/// the two words.
pub proof fn lemma_words_sum_update(s: Seq<u8>, i: int, hi: u8, lo: u8)
    requires
        0 <= i,
        i + 1 < s.len(),
        i % 2 == 0,
    ensures
        words_sum(s.update(i, hi).update(i + 1, lo)) + s[i] as nat * 256 + s[i + 1] as nat
            == words_sum(s) + hi as nat * 256 + lo as nat,
{
    let t = s.update(i, hi).update(i + 1, lo);
    let k = i + 2;
    lemma_words_sum_prefix(s, k);
    lemma_words_sum_prefix(t, k);
    assert(t.skip(k) =~= s.skip(k));
    let sp = s.take(k);
    let tp = t.take(k);
    assert(sp.take(sp.len() - 2) =~= s.take(i));
    assert(tp.take(tp.len() - 2) =~= s.take(i));
}

/// One step of the end-around carry keeps the folded value.
proof fn lemma_fold_step(x: nat, h: nat, l: nat)
    requires
        x == h * 0x10000 + l,
        h >= 1,
    ensures
        ones_fold(l + h) == ones_fold(x),
        l + h < x,
{
    assert((x - 1) == 0xFFFF * h + (l + h - 1)) by (nonlinear_arith)
        requires
            x == h * 0x10000 + l,
    ;
    vstd::arithmetic::div_mod::lemma_mod_multiples_vanish(h as int, (l + h - 1) as int, 0xFFFF);
}

/// Computes the Internet checksum of `data`.
pub fn checksum(data: &[u8]) -> (r: u16)
    requires
        checksum_fits(data@),
    ensures
        r == checksum_spec(data@),
{
    let n = data.len();
    let mut sum: u32 = 0;
    let mut i: usize = 0;
    while i < n
        invariant
            n == data@.len(),
            i <= n,
            i % 2 == 0 || i == n,
            sum == words_sum(data@.take(i as int)),
            checksum_fits(data@),
        decreases n - i,
    {
        let word: u32;
        let next: usize;
        if i + 1 < n {
            word = (data[i] as u32) * 256 + data[i + 1] as u32;
            next = i + 2;
            proof {
                let t = data@.take(next as int);
                assert(t.take(t.len() - 2) =~= data@.take(i as int));
            }
        } else {
            word = (data[i] as u32) * 256;
            next = n;
            proof {
                let t = data@.take(next as int);
                assert(t.take(t.len() - 1) =~= data@.take(i as int));
            }
        }
        proof {
            lemma_words_sum_prefix(data@, next as int);
        }
        sum = sum + word;
        i = next;
    }
    assert(data@.take(n as int) =~= data@);
    let ghost total: nat = sum as nat;
    while sum >> 16 != 0
        invariant
            ones_fold(sum as nat) == ones_fold(total),
        decreases sum,
    {
        let lo = sum & 0xFFFF;
        let hi = sum >> 16;
        assert(lo == sum % 0x10000 && hi == sum / 0x10000) by (bit_vector)
            requires
                lo == sum & 0xFFFF,
                hi == sum >> 16,
        ;
        proof {
            lemma_fold_step(sum as nat, hi as nat, lo as nat);
        }
        sum = lo + hi;
    }
    assert(sum >> 16 == 0 ==> sum < 0x10000) by (bit_vector);
    let s16 = sum as u16;
    let r = !s16;
    assert(r == 0xFFFF - s16) by (bit_vector)
        requires
            r == !s16,
    ;
    r
}

/// Appends the bytes of `src` to `v`.
pub fn append_bytes(v: &mut Vec<u8>, src: &[u8])
    ensures
        final(v)@ == old(v)@ + src@,
{
    let mut i: usize = 0;
    while i < src.len()
        invariant
            i <= src@.len(),
            v@ == old(v)@ + src@.take(i as int),
        decreases src@.len() - i,
    {
        v.push(src[i]);
        i = i + 1;
        assert(v@ =~= old(v)@ + src@.take(i as int));
    }
    assert(src@.take(i as int) =~= src@);
}

/// Appends the two bytes of `x`, most significant first.
pub fn push_be16(v: &mut Vec<u8>, x: u16)
    ensures
        final(v)@ == old(v)@ + be16(x),
{
    v.push((x / 256) as u8);
    v.push((x % 256) as u8);
    assert(v@ =~= old(v)@ + be16(x));
}

/// Computes the TCP checksum of `tcp_segment` sent from `src` to `dst`, over
/// the pseudo header and the segment.
pub fn tcp_checksum(src: Ipv4Address, dst: Ipv4Address, tcp_segment: &[u8]) -> (r: u16)
    requires
        checksum_fits(pseudo_header(src, dst, tcp_segment@.len()) + tcp_segment@),
    ensures
        r == tcp_checksum_spec(src, dst, tcp_segment@),
{
    let mut pseudo_hdr: Vec<u8> = Vec::new();
    append_bytes(&mut pseudo_hdr, &src.0);
    append_bytes(&mut pseudo_hdr, &dst.0);
    pseudo_hdr.push(0);
    pseudo_hdr.push(6);
    let len16 = (tcp_segment.len() % 0x10000) as u16;
    push_be16(&mut pseudo_hdr, len16);
    append_bytes(&mut pseudo_hdr, tcp_segment);
    assert(pseudo_hdr@ =~= pseudo_header(src, dst, tcp_segment@.len()) + tcp_segment@);
    checksum(pseudo_hdr.as_slice())
}

/// Filling a zeroed checksum field at an even offset with the checksum of the
/// whole makes the checksum of the result zero: what a sender writes, the
/// receiver's check accepts.
pub proof fn law_checksum_fill(s: Seq<u8>, i: int)
    requires
        0 <= i,
        i + 1 < s.len(),
        i % 2 == 0,
        s[i] == 0,
        s[i + 1] == 0,
    ensures
        checksum_spec(s.update(i, be16(checksum_spec(s))[0]).update(i + 1, be16(checksum_spec(s))[1])) == 0,
{
    let c = checksum_spec(s);
    let hi = be16(c)[0];
    let lo = be16(c)[1];
    lemma_words_sum_update(s, i, hi, lo);
    let total = words_sum(s);
    let f = ones_fold(total);
    assert(hi as nat * 256 + lo as nat == c);
    let t = total + c;
    if total == 0 {
        assert(t == 0xFFFF);
    } else {
        assert(total - 1 == 0xFFFF * ((total - 1) / 0xFFFF) + (total - 1) % 0xFFFF) by (nonlinear_arith);
        assert(t - 1 == 0xFFFF * ((total - 1) / 0xFFFF) + 0xFFFE);
        vstd::arithmetic::div_mod::lemma_mod_multiples_vanish(((total - 1) / 0xFFFF) as int, 0xFFFE, 0xFFFF);
    }
}

/// The TCP form of the law above: a segment whose checksum field (bytes 16
/// and 17) was zero when its checksum was computed, and then holds it,
/// checks to zero.
pub proof fn law_tcp_checksum_fill(src: Ipv4Address, dst: Ipv4Address, seg: Seq<u8>)
    requires
        seg.len() >= 18,
        seg[16] == 0,
        seg[17] == 0,
    ensures
        tcp_checksum_spec(
            src,
            dst,
            seg.update(16, be16(tcp_checksum_spec(src, dst, seg))[0]).update(
                17,
                be16(tcp_checksum_spec(src, dst, seg))[1],
            ),
        ) == 0,
{
    let c = tcp_checksum_spec(src, dst, seg);
    let p = pseudo_header(src, dst, seg.len());
    let seg2 = seg.update(16, be16(c)[0]).update(17, be16(c)[1]);
    assert(p.len() == 12);
    law_checksum_fill(p + seg, 28);
    assert((p + seg).update(28, be16(c)[0]).update(29, be16(c)[1]) =~= p + seg2);
}

} // verus!
