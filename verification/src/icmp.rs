//! The pure computations behind an ICMP echo probe: the RFC 1071
//! one's-complement checksum over a byte buffer, and the eight-byte
//! echo-request packet built around it.

use vstd::calc;
use vstd::prelude::*;

verus! {

/// Sum of the big-endian 16-bit words of `data`; a trailing odd byte
/// counts as the high half of a final word.
pub open spec fn word_sum(data: Seq<u8>) -> int
    decreases data.len(),
{
    if data.len() == 0 {
        0
    } else if data.len() == 1 {
        (data[0] as int) * 256
    } else {
        (data[0] as int) * 256 + (data[1] as int) + word_sum(data.skip(2))
    }
}

/// Folds the carries above bit 15 back into the low 16 bits until none
/// remain, as one's-complement addition requires.
pub open spec fn fold_carries(s: int) -> int
    decreases s,
{
    if s < 0x10000 {
        s
    } else {
        fold_carries(s % 0x10000 + s / 0x10000)
    }
}

/// The RFC 1071 internet checksum of `data`: the complement of the
/// one's-complement sum of its 16-bit words, accumulated modulo 2^32
/// exactly as a 32-bit accumulator would.
pub open spec fn checksum_spec(data: Seq<u8>) -> u16 {
    !(fold_carries(word_sum(data) % 0x1_0000_0000) as u16)
}

proof fn lemma_word_sum_nonneg(data: Seq<u8>)
    ensures
        word_sum(data) >= 0,
    decreases data.len(),
{
    if data.len() >= 2 {
        lemma_word_sum_nonneg(data.skip(2));
    }
}

/// Computes the internet checksum of a byte buffer.
pub fn checksum(data: &[u8]) -> (r: u16)
    ensures
        r == checksum_spec(data@),
{
    let m: u32 = 0xffff;
    let mut sum: u32 = 0;
    let mut i: usize = 0;
    proof {
        assert(data@.skip(0) =~= data@);
    }
    while data.len() - i >= 2
        invariant
            i <= data.len(),
            (sum as int + word_sum(data@.skip(i as int))) % 0x1_0000_0000 == word_sum(data@)
                % 0x1_0000_0000,
        decreases data.len() - i,
    {
        let word: u32 = (data[i] as u32) * 256 + (data[i + 1] as u32);
        let prev = sum;
        sum = sum.wrapping_add(word);
        proof {
            let rest = data@.skip(i as int + 2);
            assert(data@.skip(i as int).skip(2) =~= rest);
            assert(word_sum(data@.skip(i as int)) == word + word_sum(rest));
            lemma_word_sum_nonneg(rest);
            lemma_mod_shift(prev as int + word, rest, data@);
        }
        i = i + 2;
    }
    if i < data.len() {
        let prev = sum;
        sum = sum.wrapping_add((data[i] as u32) * 256);
        proof {
            assert(data@.skip(i as int).len() == 1);
            assert(word_sum(data@.skip(i as int)) == (data@[i as int] as int) * 256);
            lemma_mod_shift(prev as int + (data@[i as int] as int) * 256, Seq::<u8>::empty(), data@);
        }
        i = data.len();
    }
    proof {
        assert(data@.skip(i as int).len() == 0);
        assert(word_sum(data@.skip(i as int)) == 0);
        assert(sum as int % 0x1_0000_0000 == sum as int) by {
            vstd::arithmetic::div_mod::lemma_small_mod(sum as nat, 0x1_0000_0000);
        }
    }
    while sum >> 16 != 0
        invariant
            fold_carries(sum as int) == fold_carries(word_sum(data@) % 0x1_0000_0000),
        decreases sum,
    {
        assert(sum & 0xffffu32 == sum % 0x10000) by (bit_vector);
        assert(sum >> 16u32 == sum / 0x10000) by (bit_vector);
        assert(sum >> 16u32 != 0 ==> sum >= 0x10000) by (bit_vector);
        sum = (sum & 0xffff) + (sum >> 16);
    }
    assert(sum >> 16u32 == 0 ==> sum < 0x10000) by (bit_vector);
    !(sum as u16)
}

/// Restates the accumulator invariant after one wrapping addition:
/// reducing the partial sum modulo 2^32 does not change the value of the
/// whole sum modulo 2^32.
proof fn lemma_mod_shift(partial: int, rest: Seq<u8>, whole: Seq<u8>)
    requires
        partial >= 0,
        (partial + word_sum(rest)) % 0x1_0000_0000 == word_sum(whole) % 0x1_0000_0000,
    ensures
        (partial % 0x1_0000_0000 + word_sum(rest)) % 0x1_0000_0000 == word_sum(whole)
            % 0x1_0000_0000,
{
    let m = 0x1_0000_0000int;
    let rs = word_sum(rest);
    lemma_word_sum_nonneg(rest);
    calc! {
        (==)
        (partial % m + rs) % m; {
            vstd::arithmetic::div_mod::lemma_add_mod_noop(partial % m, rs, m);
            vstd::arithmetic::div_mod::lemma_mod_twice(partial, m);
        }
        (partial % m % m + rs % m) % m; {
            vstd::arithmetic::div_mod::lemma_mod_twice(partial, m);
            vstd::arithmetic::div_mod::lemma_add_mod_noop(partial, rs, m);
        }
        (partial + rs) % m;
    }
}

/// The eight ICMP echo-request header bytes with the checksum field
/// still zero: type 8, code 0, then identifier and sequence number in
/// big-endian order.
pub open spec fn echo_header_zero_checksum(id: u16, seq: u16) -> Seq<u8> {
    seq![8u8, 0u8, 0u8, 0u8, (id >> 8) as u8, id as u8, (seq >> 8) as u8, seq as u8]
}

/// The finished echo-request packet: the zero-checksum header with the
/// checksum of that header written into bytes 2 and 3.
pub open spec fn echo_packet(id: u16, seq: u16) -> Seq<u8> {
    let c = checksum_spec(echo_header_zero_checksum(id, seq));
    seq![8u8, 0u8, (c >> 8) as u8, c as u8, (id >> 8) as u8, id as u8, (seq >> 8) as u8, seq as u8]
}

/// Builds an ICMP echo-request packet for the given identifier and
/// sequence number.
pub fn build_icmp_packet(id: u16, seq: u16) -> (packet: Vec<u8>)
    ensures
        packet@ == echo_packet(id, seq),
{
    let mut packet: Vec<u8> = Vec::new();
    packet.push(8);
    packet.push(0);
    packet.push(0);
    packet.push(0);
    packet.push((id >> 8) as u8);
    packet.push(id as u8);
    packet.push((seq >> 8) as u8);
    packet.push(seq as u8);
    proof {
        assert(packet@ =~= echo_header_zero_checksum(id, seq));
    }
    let csum = checksum(packet.as_slice());
    packet[2] = (csum >> 8) as u8;
    packet[3] = csum as u8;
    proof {
        assert(packet@ =~= echo_packet(id, seq));
    }
    packet
}

} // verus!
