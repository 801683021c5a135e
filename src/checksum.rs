//! The 16-bit one's-complement Internet checksum.

use vstd::prelude::*;

verus! {

/// The big-endian 16-bit word number `k` of `s`; an odd final byte is padded
/// with a trailing zero.
pub open spec fn word_at(s: Seq<u8>, k: int) -> nat {
    let hi = s[2 * k] as nat;
    let lo: nat = if 2 * k + 1 < s.len() { s[2 * k + 1] as nat } else { 0 };
    hi * 256 + lo
}

/// The plain (carry-keeping) sum of the first `n` words of `s`.
pub open spec fn words_sum(s: Seq<u8>, n: nat) -> nat
    decreases n,
{
    if n == 0 {
        0
    } else {
        words_sum(s, (n - 1) as nat) + word_at(s, n - 1)
    }
}

/// How many 16-bit words `s` holds, the padded one included.
pub open spec fn word_count(s: Seq<u8>) -> nat {
    ((s.len() + 1) / 2) as nat
}

/// Folding carries of `x` back into 16 bits until none remain: zero stays
/// zero, any other value lands in `1 ..= 0xFFFF` and keeps its residue mod 0xFFFF.
pub open spec fn ones_fold(x: nat) -> nat {
    if x == 0 {
        0
    } else {
        (((x - 1) as nat) % 65535 + 1) as nat
    }
}

/// The one's-complement sum of the words of `s`.
pub open spec fn ones_sum(s: Seq<u8>) -> nat {
    ones_fold(words_sum(s, word_count(s)))
}

/// The Internet checksum of `s`: the complement of its one's-complement sum.
pub open spec fn internet_checksum(s: Seq<u8>) -> u16 {
    (0xFFFFnat - ones_sum(s)) as u16
}

/// One's-complement addition of a 16-bit word to a folded value.
pub open spec fn ones_add(a: nat, w: nat) -> nat {
    if a + w > 0xFFFF {
        (a + w - 0xFFFF) as nat
    } else {
        a + w
    }
}

pub proof fn lemma_ones_fold_bound(x: nat)
    ensures
        ones_fold(x) <= 0xFFFF,
        x > 0 ==> ones_fold(x) >= 1,
        x <= 0xFFFF ==> ones_fold(x) == x,
{
    if x > 0 {
        assert(((x - 1) as nat) % 65535 < 65535) by (nonlinear_arith);
        if x <= 0xFFFF {
            assert(((x - 1) as nat) % 65535 == (x - 1) as nat) by (nonlinear_arith)
                requires
                    x >= 1,
                    x <= 0xFFFF,
            ;
        }
    }
}

pub proof fn lemma_ones_sum_bound(s: Seq<u8>)
    ensures
        ones_sum(s) <= 0xFFFF,
        internet_checksum(s) == 0 <==> ones_sum(s) == 0xFFFF,
{
    lemma_ones_fold_bound(words_sum(s, word_count(s)));
}

/// Adding a word to a sum and then folding is adding it to the folded sum.
pub proof fn lemma_ones_fold_add(x: nat, w: nat)
    requires
        w <= 0xFFFF,
    ensures
        ones_fold(x + w) == ones_add(ones_fold(x), w),
{
    lemma_ones_fold_bound(x);
    lemma_ones_fold_bound(w);
    if x == 0 {
    } else if w == 0 {
    } else {
        let f = ones_fold(x);
        let q = ((x - 1) as nat) / 65535;
        let r = ((x - 1) as nat) % 65535;
        assert((x - 1) as nat == q * 65535 + r && r < 65535) by (nonlinear_arith)
            requires
                x >= 1,
                q == ((x - 1) as nat) / 65535,
                r == ((x - 1) as nat) % 65535,
        ;
        assert(f == r + 1);
        if f + w <= 0xFFFF {
            assert(((x + w - 1) as nat) % 65535 == r + w) by (nonlinear_arith)
                requires
                    (x - 1) as nat == q * 65535 + r,
                    r + w < 65535,
                    x >= 1,
            ;
        } else {
            assert(((x + w - 1) as nat) % 65535 == (r + w - 65535) as nat) by (nonlinear_arith)
                requires
                    (x - 1) as nat == q * 65535 + r,
                    r + w >= 65535,
                    r < 65535,
                    w <= 65535,
                    x >= 1,
            ;
        }
    }
}

/// Changing the bytes of one word changes the word sum by that word alone.
pub proof fn lemma_words_sum_one_word(s: Seq<u8>, t: Seq<u8>, k: int, n: nat)
    requires
        s.len() == t.len(),
        0 <= k,
        2 * k + 1 < s.len(),
        n <= word_count(s),
        forall|i: int| 0 <= i < s.len() && i != 2 * k && i != 2 * k + 1 ==> s[i] == t[i],
    ensures
        n <= k ==> words_sum(t, n) == words_sum(s, n),
        n > k ==> words_sum(t, n) + word_at(s, k) == words_sum(s, n) + word_at(t, k),
    decreases n,
{
    if n > 0 {
        lemma_words_sum_one_word(s, t, k, (n - 1) as nat);
        let j = n - 1;
        if j != k {
            assert(s[2 * j] == t[2 * j]);
            if 2 * j + 1 < s.len() {
                assert(s[2 * j + 1] == t[2 * j + 1]);
            }
            assert(word_at(s, j) == word_at(t, j));
        }
    }
}

/// Writing the checksum of `s` into a zeroed word of `s` makes the
/// one's-complement sum all ones, which is what a receiver checks.
pub proof fn lemma_checksum_fills(s: Seq<u8>, k: int)
    requires
        0 <= k,
        2 * k + 1 < s.len(),
        s[2 * k] == 0,
        s[2 * k + 1] == 0,
    ensures
        ones_sum(
            s.update(2 * k, (internet_checksum(s) / 256) as u8).update(
                2 * k + 1,
                (internet_checksum(s) % 256) as u8,
            ),
        ) == 0xFFFF,
{
    let c = internet_checksum(s);
    let t = s.update(2 * k, (c / 256) as u8).update(2 * k + 1, (c % 256) as u8);
    let n = word_count(s);
    lemma_words_sum_one_word(s, t, k, n);
    assert(word_at(s, k) == 0);
    assert(word_at(t, k) == c);
    let sum = words_sum(s, n);
    lemma_ones_fold_bound(sum);
    assert(words_sum(t, n) == sum + c);
    if sum == 0 {
        lemma_ones_fold_bound(0xFFFF);
    } else {
        let q = ((sum - 1) as nat) / 65535;
        let r = ((sum - 1) as nat) % 65535;
        assert((sum - 1) as nat == q * 65535 + r && r < 65535) by (nonlinear_arith)
            requires
                sum >= 1,
                q == ((sum - 1) as nat) / 65535,
                r == ((sum - 1) as nat) % 65535,
        ;
        assert(c == 0xFFFF - (r + 1));
        assert(((sum + c - 1) as nat) % 65535 == 65534) by (nonlinear_arith)
            requires
                (sum - 1) as nat == q * 65535 + r,
                r < 65535,
                c == 0xFFFF - (r + 1),
                sum >= 1,
        ;
    }
}

/// The Internet checksum of `data`: big-endian 16-bit words, an odd final
/// byte padded with zero, summed in one's complement and complemented.
pub fn calculate_checksum(data: &[u8]) -> (r: u16)
    ensures
        r == internet_checksum(data@),
{
    let len = data.len();
    let mut acc: u32 = 0;
    let mut i: usize = 0;
    while i + 1 < len
        invariant
            len == data@.len(),
            i % 2 == 0,
            i <= len,
            acc <= 0xFFFF,
            acc == ones_fold(words_sum(data@, (i / 2) as nat)),
        decreases len - i,
    {
        let word: u32 = (data[i] as u32) * 256 + (data[i + 1] as u32);
        proof {
            assert(word_at(data@, (i / 2) as int) == word);
            assert(words_sum(data@, (i / 2 + 1) as nat) == words_sum(data@, (i / 2) as nat) + word);
            lemma_ones_fold_add(words_sum(data@, (i / 2) as nat), word as nat);
        }
        acc = acc + word;
        if acc > 0xFFFF {
            acc = acc - 0xFFFF;
        }
        i = i + 2;
    }
    if i < len {
        let word: u32 = (data[i] as u32) * 256;
        proof {
            assert(word_at(data@, (i / 2) as int) == word);
            assert(words_sum(data@, (i / 2 + 1) as nat) == words_sum(data@, (i / 2) as nat) + word);
            lemma_ones_fold_add(words_sum(data@, (i / 2) as nat), word as nat);
        }
        acc = acc + word;
        if acc > 0xFFFF {
            acc = acc - 0xFFFF;
        }
        assert(word_count(data@) == i / 2 + 1);
    } else {
        assert(word_count(data@) == i / 2);
    }
    (0xFFFF - acc) as u16
}

} // verus!
