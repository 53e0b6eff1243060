use vstd::prelude::*;

verus! {

/// Sum of the first `n` big-endian 16-bit words of `s`.
pub open spec fn words_sum(s: Seq<u8>, n: int) -> nat
    decreases n,
{
    if n <= 0 {
        0
    } else {
        words_sum(s, n - 1) + (s[2 * (n - 1)] as nat) * 256 + (s[2 * (n - 1) + 1] as nat)
    }
}

/// The ones'-complement accumulator before folding: all full words, plus a
/// trailing odd byte taken as the high byte of a word.
pub open spec fn raw_sum(s: Seq<u8>) -> nat {
    words_sum(s, s.len() as int / 2) + if s.len() % 2 == 1 {
        (s[s.len() - 1] as nat) * 256
    } else {
        0
    }
}

/// End-around carry folding down to 16 bits.
pub open spec fn fold_carries(x: nat) -> nat
    decreases x,
{
    if x < 0x10000 {
        x
    } else {
        fold_carries(x % 0x10000 + x / 0x10000)
    }
}

/// The Internet checksum (RFC 1071) of `s`.
pub open spec fn internet_checksum(s: Seq<u8>) -> u16 {
    (0xFFFF - fold_carries(raw_sum(s))) as u16
}

pub proof fn lemma_fold_bound(x: nat)
    ensures
        fold_carries(x) < 0x10000,
    decreases x,
{
    if x >= 0x10000 {
        lemma_fold_bound(x % 0x10000 + x / 0x10000);
    }
}

/// Computes the Internet checksum of `data`.
pub fn checksum(data: &[u8]) -> (r: u16)
    requires
        raw_sum(data@) <= u32::MAX,
    ensures
        r == internet_checksum(data@),
{
    let n: usize = data.len();
    let mut sum: u32 = 0;
    let mut i: usize = 0;
    while i < n / 2
        invariant
            n == data@.len(),
            i <= n / 2,
            sum == words_sum(data@, i as int),
            raw_sum(data@) <= u32::MAX,
        decreases n / 2 - i,
    {
        proof {
            assert(words_sum(data@, (i + 1) as int) == words_sum(data@, i as int)
                + (data@[2 * i as int] as nat) * 256 + (data@[2 * i as int + 1] as nat));
            lemma_words_sum_mono(data@, (i + 1) as int, n as int / 2);
        }
        let word: u32 = (data[2 * i] as u32) * 256 + (data[2 * i + 1] as u32);
        sum = sum + word;
        i = i + 1;
    }
    if n % 2 == 1 {
        sum = sum + (data[n - 1] as u32) * 256;
    }
    assert(sum == raw_sum(data@));
    let ghost total: nat = sum as nat;
    while sum >> 16 != 0
        invariant
            fold_carries(sum as nat) == fold_carries(total),
        decreases sum,
    {
        assert(sum >> 16 == sum / 0x10000) by (bit_vector);
        assert(sum & 0xFFFF == sum % 0x10000) by (bit_vector);
        sum = (sum & 0xFFFF) + (sum >> 16);
    }
    assert(sum >> 16 == sum / 0x10000) by (bit_vector);
    proof {
        lemma_fold_bound(total);
    }
    let r: u16 = !(sum as u16);
    assert(sum < 0x10000 ==> !(sum as u16) == (0xFFFF - sum) as u16) by (bit_vector);
    r
}

proof fn lemma_words_sum_mono(s: Seq<u8>, a: int, b: int)
    requires
        0 <= a <= b,
    ensures
        words_sum(s, a) <= words_sum(s, b),
    decreases b - a,
{
    if a < b {
        lemma_words_sum_mono(s, a, b - 1);
    }
}

} // verus!

verus! {

pub proof fn lemma_words_sum_bound(s: Seq<u8>, n: int)
    requires
        0 <= n,
        2 * n <= s.len(),
    ensures
        words_sum(s, n) <= n * 0xFFFF,
    decreases n,
{
    if n > 0 {
        lemma_words_sum_bound(s, n - 1);
    }
}

/// Inputs up to 131070 bytes never overflow the 32-bit accumulator.
pub proof fn lemma_raw_sum_bound(s: Seq<u8>)
    requires
        s.len() <= 131070,
    ensures
        raw_sum(s) <= u32::MAX,
{
    lemma_words_sum_bound(s, s.len() as int / 2);
}

} // verus!
