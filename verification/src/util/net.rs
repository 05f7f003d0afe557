//! Internet checksums and headers.

use vstd::prelude::*;

verus! {

/// The bytes read as big-endian 16-bit words and added up; an odd byte at the end is the
/// high half of a word.
pub open spec fn word_sum(d: Seq<u8>) -> nat
    decreases d.len(),
{
    if d.len() == 0 {
        0
    } else {
        word_sum(d.drop_last()) + d.last() as nat * (if (d.len() - 1) % 2 == 0 {
            256nat
        } else {
            1nat
        })
    }
}

/// A sum brought to 16 bits by adding the carries back in.
pub open spec fn folded(n: nat) -> nat {
    if n == 0 {
        0
    } else {
        (1 + (n - 1) % 65535) as nat
    }
}

/// The checksum of a sum: the complement of its 16 bits.
pub open spec fn complement(n: nat) -> u16 {
    (65535 - folded(n)) as u16
}

/// The fields ahead of a TCP segment that count towards its checksum.
pub open spec fn tcp_sum(src_ip: u32, dst_ip: u32, payload: Seq<u8>) -> nat {
    (src_ip / 65536 + src_ip % 65536 + dst_ip / 65536 + dst_ip % 65536 + 6 + payload.len()
        % 0x1_0000_0000 + word_sum(payload)) as nat
}

/// The big-endian number in two bytes.
pub open spec fn be16(d: Seq<u8>, at: int) -> u16 {
    (d[at] * 256 + d[at + 1]) as u16
}

/// The big-endian number in four bytes.
pub open spec fn be32(d: Seq<u8>, at: int) -> u32 {
    (d[at] * 0x100_0000 + d[at + 1] * 0x1_0000 + d[at + 2] * 0x100 + d[at + 3]) as u32
}

/// The length of an IPv4 header by its own account.
pub open spec fn header_len(pkt: Seq<u8>) -> int {
    pkt[0] % 16 * 4
}

/// An IPv4 header that is all there, of a sensible length and with the right checksum.
pub open spec fn is_ipv4_header(pkt: Seq<u8>) -> bool {
    &&& pkt.len() >= 20
    &&& pkt[0] / 16 == 4
    &&& 20 <= header_len(pkt) <= pkt.len()
    &&& folded(word_sum(pkt.take(header_len(pkt)))) == 0xFFFF
}

proof fn lemma_fold_step(n: nat)
    requires
        n > 65535,
    ensures
        folded(n) == folded((n % 65536 + n / 65536) as nat),
        0 < n % 65536 + n / 65536 < n,
{
    let (h, l) = (n as int / 65536, n as int % 65536);
    assert(n - 1 == 65535 * h + (h + l - 1));
    vstd::arithmetic::div_mod::lemma_mod_multiples_vanish(h, h + l - 1, 65535);
}

proof fn lemma_fold_small(n: nat)
    requires
        n <= 65535,
    ensures
        folded(n) == n,
{
    if n > 0 {
        vstd::arithmetic::div_mod::lemma_small_mod((n - 1) as nat, 65535);
    }
}

proof fn lemma_word_sum_grows(d: Seq<u8>, n: int)
    requires
        0 <= n <= d.len(),
    ensures
        word_sum(d.take(n)) <= word_sum(d),
    decreases d.len() - n,
{
    if n < d.len() {
        lemma_word_sum_grows(d, n + 1);
        lemma_word_sum_step(d, n);
    } else {
        assert(d.take(n) =~= d);
    }
}

proof fn lemma_word_sum_step(d: Seq<u8>, n: int)
    requires
        0 <= n < d.len(),
    ensures
        word_sum(d.take(n + 1)) == word_sum(d.take(n)) + d[n] * (if n % 2 == 0 {
            256nat
        } else {
            1nat
        }),
{
    assert(d.take(n + 1).drop_last() =~= d.take(n));
}

proof fn lemma_word_sum_bound(d: Seq<u8>)
    ensures
        word_sum(d) <= d.len() * 0xFF00,
    decreases d.len(),
{
    if d.len() > 0 {
        lemma_word_sum_bound(d.drop_last());
    }
}

/// Adds the words of `data` up to `end` to `start`.
fn add_words(start: u32, data: &[u8], end: usize) -> (r: u32)
    requires
        end <= data@.len(),
        start + word_sum(data@.take(end as int)) <= u32::MAX,
    ensures
        r == start + word_sum(data@.take(end as int)),
{
    let ghost part = data@.take(end as int);
    let mut sum: u32 = start;
    let mut i: usize = 0;
    while i < end
        invariant
            i <= end <= data@.len(),
            part == data@.take(end as int),
            start + word_sum(part) <= u32::MAX,
            sum == start + word_sum(part.take(i as int)),
        decreases end - i,
    {
        proof {
            lemma_word_sum_step(part, i as int);
            lemma_word_sum_grows(part, i + 1);
        }
        let b: u32 = data[i] as u32;
        if i % 2 == 0 {
            sum = sum + b * 256;
        } else {
            sum = sum + b;
        }
        i += 1;
    }
    assert(part.take(i as int) =~= part);
    sum
}

/// Adds the carries of a sum back in.
fn fold(sum: u32) -> (r: u16)
    ensures
        r == folded(sum as nat),
{
    let mut s: u32 = sum;
    while s > 0xFFFF
        invariant
            folded(s as nat) == folded(sum as nat),
        decreases s,
    {
        proof {
            lemma_fold_step(s as nat);
        }
        s = s % 65536 + s / 65536;
    }
    proof {
        lemma_fold_small(s as nat);
    }
    s as u16
}

/// The checksum of a TCP segment between two addresses.
pub fn tcp_checksum(src_ip: u32, dst_ip: u32, payload: &[u8]) -> (r: u16)
    requires
        tcp_sum(src_ip, dst_ip, payload@) <= u32::MAX,
    ensures
        r == complement(tcp_sum(src_ip, dst_ip, payload@)),
{
    let len: u32 = (payload.len() as u64 % 0x1_0000_0000) as u32;
    let head: u32 = src_ip / 65536 + src_ip % 65536 + dst_ip / 65536 + dst_ip % 65536 + 6 + len;
    assert(payload@.take(payload@.len() as int) =~= payload@);
    let sum: u32 = add_words(head, payload, payload.len());
    0xFFFF - fold(sum)
}

/// Source, destination, protocol and total length of an IPv4 packet, if its header stands
/// up.
pub fn parse_ipv4_header(pkt: &[u8]) -> (r: Option<(u32, u32, u8, u16)>)
    ensures
        r == if is_ipv4_header(pkt@) {
            Some((be32(pkt@, 12), be32(pkt@, 16), pkt@[9], be16(pkt@, 2)))
        } else {
            None
        },
{
    if pkt.len() < 20 {
        return None;
    }
    if pkt[0] / 16 != 4 {
        return None;
    }
    let len: usize = (pkt[0] % 16) as usize * 4;
    if len < 20 || pkt.len() < len {
        return None;
    }
    proof {
        lemma_word_sum_bound(pkt@.take(len as int));
    }
    let sum: u32 = add_words(0, pkt, len);
    if fold(sum) != 0xFFFF {
        return None;
    }
    let src: u32 = pkt[12] as u32 * 0x100_0000 + pkt[13] as u32 * 0x1_0000 + pkt[14] as u32
        * 0x100 + pkt[15] as u32;
    let dst: u32 = pkt[16] as u32 * 0x100_0000 + pkt[17] as u32 * 0x1_0000 + pkt[18] as u32
        * 0x100 + pkt[19] as u32;
    Some((src, dst, pkt[9], pkt[2] as u16 * 256 + pkt[3] as u16))
}

/// The twelve bytes ahead of a segment: both addresses, a zero, the protocol and the
/// length.
pub fn build_pseudo_header(src: u32, dst: u32, proto: u8, length: u16) -> (r: Vec<u8>)
    ensures
        r@.len() == 12,
        be32(r@, 0) == src,
        be32(r@, 4) == dst,
        r@[8] == 0,
        r@[9] == proto,
        be16(r@, 10) == length,
{
    let mut hdr: Vec<u8> = Vec::new();
    push_be32(&mut hdr, src);
    push_be32(&mut hdr, dst);
    hdr.push(0);
    hdr.push(proto);
    hdr.push((length / 256) as u8);
    hdr.push((length % 256) as u8);
    hdr
}

/// Appends a number as four bytes, the highest first.
fn push_be32(hdr: &mut Vec<u8>, v: u32)
    ensures
        final(hdr)@.len() == old(hdr)@.len() + 4,
        final(hdr)@.take(old(hdr)@.len() as int) == old(hdr)@,
        forall|i: int| 0 <= i < old(hdr)@.len() ==> #[trigger] final(hdr)@[i] == old(hdr)@[i],
        be32(final(hdr)@, old(hdr)@.len() as int) == v,
{
    let a: u32 = v / 0x100_0000;
    let b: u32 = v / 0x1_0000 % 256;
    let c: u32 = v / 0x100 % 256;
    let d: u32 = v % 256;
    proof {
        assert(v / 0x1_0000 / 256 == v / 0x100_0000);
        assert(v / 0x100 / 256 == v / 0x1_0000);
        assert(v == a * 0x100_0000 + b * 0x1_0000 + c * 0x100 + d);
    }
    hdr.push(a as u8);
    hdr.push(b as u8);
    hdr.push(c as u8);
    hdr.push(d as u8);
    assert(hdr@.take(old(hdr)@.len() as int) =~= old(hdr)@);
}

/// The Internet checksum of some bytes.
pub fn compute_inet_checksum(data: &[u8]) -> (r: u16)
    requires
        word_sum(data@) <= u32::MAX,
    ensures
        r == complement(word_sum(data@)),
{
    assert(data@.take(data@.len() as int) =~= data@);
    let sum: u32 = add_words(0, data, data.len());
    0xFFFF - fold(sum)
}

/// Bytes of even length followed by their checksum have the checksum zero.
pub proof fn law_checksum_checks_out(d: Seq<u8>)
    requires
        d.len() % 2 == 0,
    ensures
        ({
            let c = complement(word_sum(d));
            complement(word_sum(d.push((c / 256) as u8).push((c % 256) as u8))) == 0
        }),
{
    let n = word_sum(d) as int;
    let c = complement(word_sum(d));
    let e = d.push((c / 256) as u8);
    let f = e.push((c % 256) as u8);
    assert(e.drop_last() =~= d);
    assert(f.drop_last() =~= e);
    assert(word_sum(e) == n + c / 256 * 256);
    assert(word_sum(f) == n + c);
    if n > 0 {
        let q = (n - 1) / 65535;
        assert(n + c - 1 == 65535 * q + 65534);
        vstd::arithmetic::div_mod::lemma_mod_multiples_vanish(q, 65534, 65535);
        vstd::arithmetic::div_mod::lemma_small_mod(65534, 65535);
    } else {
        vstd::arithmetic::div_mod::lemma_small_mod(65534, 65535);
    }
    assert(folded(word_sum(f)) == 65535);
}

/// Two bytes behind a whole number of words add a word, the high byte first; a byte alone counts
/// as the high one.
pub proof fn law_words_have_the_high_byte_first(d: Seq<u8>, hi: u8, lo: u8)
    requires
        d.len() % 2 == 0,
    ensures
        word_sum(d.push(hi).push(lo)) == word_sum(d) + 256 * hi + lo,
        word_sum(d.push(hi)) == word_sum(d) + 256 * hi,
        word_sum(Seq::<u8>::empty()) == 0,
{
    let (a, b) = (d.push(hi), d.push(hi).push(lo));
    assert(a.drop_last() =~= d);
    assert(b.drop_last() =~= a);
    assert((a.len() - 1) % 2 == 0 && (b.len() - 1) % 2 == 1);
    assert(a.last() == hi && b.last() == lo);
    assert(word_sum(a) == word_sum(d) + hi as nat * 256);
    assert(word_sum(b) == word_sum(a) + lo as nat * 1);
}

/// Folding keeps the rest by 65535, gives a number of 16 bits, and gives zero only for zero; the
/// complement adds up with it to all ones.
pub proof fn law_folding_keeps_the_rest(n: nat)
    ensures
        folded(n) <= 65535,
        folded(n) % 65535 == n % 65535,
        folded(n) == 0 <==> n == 0,
        n <= 65535 ==> folded(n) == n,
        n > 65535 ==> folded(n) == folded((n % 65536 + n / 65536) as nat),
        complement(n) + folded(n) == 65535,
{
    if n > 0 {
        assert((1 + (n - 1) % 65535) % 65535 == n % 65535);
    }
    if n > 65535 {
        let m = n % 65536 + n / 65536;
        assert(m > 0);
        assert(n - m == 65535 * (n / 65536));
        assert((n - 1) % 65535 == (m - 1) % 65535) by {
            vstd::arithmetic::div_mod::lemma_mod_multiples_vanish(
                (n / 65536) as int,
                (m - 1) as int,
                65535,
            );
        }
    }
}

/// Numbers are read with the high byte first.
pub proof fn law_high_byte_comes_first(d: Seq<u8>, at: int)
    ensures
        be16(d, at) == 256 * d[at] + d[at + 1],
        be32(d, at) == 65536 * be16(d, at) + be16(d, at + 2),
{
}

/// The sum of a TCP segment is that of its pseudo header and of its bytes: the pseudo header
/// holds both addresses, the number of the protocol and the length.
pub proof fn law_segment_is_summed_with_its_header(h: Seq<u8>, src: u32, dst: u32, payload: Seq<u8>)
    requires
        h.len() == 12,
        be32(h, 0) == src,
        be32(h, 4) == dst,
        h[8] == 0,
        h[9] == 6,
        payload.len() < 65536,
        be16(h, 10) == payload.len(),
    ensures
        tcp_sum(src, dst, payload) == word_sum(h) + word_sum(payload),
{
    law_high_byte_comes_first(h, 0);
    law_high_byte_comes_first(h, 4);
    assert(word_sum(h) == be16(h, 0) + be16(h, 2) + be16(h, 4) + be16(h, 6) + be16(h, 8) + be16(
        h,
        10,
    )) by {
        let none = Seq::<u8>::empty();
        law_words_have_the_high_byte_first(none, h[0], h[1]);
        let a = none.push(h[0]).push(h[1]);
        law_words_have_the_high_byte_first(a, h[2], h[3]);
        let b = a.push(h[2]).push(h[3]);
        law_words_have_the_high_byte_first(b, h[4], h[5]);
        let c = b.push(h[4]).push(h[5]);
        law_words_have_the_high_byte_first(c, h[6], h[7]);
        let d = c.push(h[6]).push(h[7]);
        law_words_have_the_high_byte_first(d, h[8], h[9]);
        let e = d.push(h[8]).push(h[9]);
        law_words_have_the_high_byte_first(e, h[10], h[11]);
        assert(e.push(h[10]).push(h[11]) =~= h);
    }
}

/// A header is accepted only in version 4, whole, at least twenty bytes long, and with a
/// checksum that checks out; and every such header is.
pub proof fn law_header_must_check_out(pkt: Seq<u8>)
    ensures
        is_ipv4_header(pkt) ==> {
            let n = 4 * (pkt[0] % 16);
            &&& 64 <= pkt[0] < 80
            &&& 20 <= n <= pkt.len()
            &&& complement(word_sum(pkt.take(n))) == 0
        },
        pkt.len() >= 20 && 69 <= pkt[0] < 80 && 4 * (pkt[0] % 16) <= pkt.len() && complement(
            word_sum(pkt.take(4 * (pkt[0] % 16))),
        ) == 0 ==> is_ipv4_header(pkt),
{
}

} // verus!
