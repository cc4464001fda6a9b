//! Numbers as little-endian bytes.

use vstd::arithmetic::div_mod::*;
use vstd::arithmetic::power::*;
use vstd::prelude::*;

verus! {

/// The `n` low bytes of `x`, the lowest first.
pub open spec fn le_bytes(x: nat, n: nat) -> Seq<u8>
    decreases n,
{
    if n == 0 {
        Seq::empty()
    } else {
        seq![(x % 256) as u8] + le_bytes(x / 256, (n - 1) as nat)
    }
}

/// The number whose bytes these are, the lowest first.
pub open spec fn le_value(s: Seq<u8>) -> nat
    decreases s.len(),
{
    if s.len() == 0 {
        0
    } else {
        s[0] as nat + 256 * le_value(s.skip(1))
    }
}

/// The words as bytes, in order.
pub open spec fn words_bytes(words: Seq<u64>) -> Seq<u8>
    decreases words.len(),
{
    if words.len() == 0 {
        Seq::empty()
    } else {
        words_bytes(words.drop_last()) + le_bytes(words.last() as nat, 8)
    }
}

/// The word number `i` of those that the bytes start with.
pub open spec fn word_at(s: Seq<u8>, i: int) -> u64 {
    le_value(s.subrange(8 * i, 8 * i + 8)) as u64
}

/// The first `n` words of those that the bytes start with.
pub open spec fn words_at(s: Seq<u8>, n: nat) -> Seq<u64> {
    Seq::new(n, |i: int| word_at(s, i))
}

pub proof fn lemma_le_len(x: nat, n: nat)
    ensures
        le_bytes(x, n).len() == n,
    decreases n,
{
    if n > 0 {
        lemma_le_len(x / 256, (n - 1) as nat);
    }
}

/// Whether `x` fits in `n` bytes.
pub open spec fn fits(x: nat, n: nat) -> bool
    decreases n,
{
    if n == 0 {
        x == 0
    } else {
        fits(x / 256, (n - 1) as nat)
    }
}

/// Reading the bytes of a number gives it back.
pub proof fn lemma_le_round_trip(x: nat, n: nat)
    requires
        fits(x, n),
    ensures
        le_value(le_bytes(x, n)) == x,
    decreases n,
{
    if n > 0 {
        lemma_le_round_trip(x / 256, (n - 1) as nat);
        lemma_le_len(x / 256, (n - 1) as nat);
        let s = le_bytes(x, n);
        assert(s.skip(1) =~= le_bytes(x / 256, (n - 1) as nat));
    }
}

pub proof fn lemma_u64_fits(x: u64)
    ensures
        fits(x as nat, 8),
{
    reveal_with_fuel(fits, 9);
}

pub proof fn lemma_u32_fits(x: u32)
    ensures
        fits(x as nat, 4),
{
    reveal_with_fuel(fits, 5);
}

pub proof fn lemma_words_len(words: Seq<u64>)
    ensures
        words_bytes(words).len() == 8 * words.len(),
    decreases words.len(),
{
    if words.len() > 0 {
        lemma_words_len(words.drop_last());
        lemma_le_len(words.last() as nat, 8);
    }
}

/// Reading the bytes of some words, whatever follows them, gives them back.
pub proof fn lemma_words_round_trip(words: Seq<u64>, rest: Seq<u8>)
    ensures
        words_at(words_bytes(words) + rest, words.len()) == words,
    decreases words.len(),
{
    if words.len() > 0 {
        let last = le_bytes(words.last() as nat, 8);
        let s = words_bytes(words) + rest;
        lemma_words_round_trip(words.drop_last(), last + rest);
        lemma_words_len(words.drop_last());
        lemma_le_len(words.last() as nat, 8);
        let n = words.len() - 1;
        assert(s =~= words_bytes(words.drop_last()) + (last + rest));
        assert(s.subrange(8 * n, 8 * n + 8) =~= last);
        lemma_u64_fits(words.last());
        lemma_le_round_trip(words.last() as nat, 8);
        assert forall|i: int| 0 <= i < words.len() implies words_at(s, words.len())[i]
            == words[i] by {
            if i < n {
                assert(words_at(s, n as nat)[i] == words.drop_last()[i]);
            }
        }
        assert(words_at(s, words.len()) =~= words);
    } else {
        assert(words_at(words_bytes(words) + rest, 0) =~= words);
    }
}

/// The byte number `j` of a number counts how many times 256 to the power `j`
/// is left in it, up to 255.
pub proof fn law_bytes_of_numbers(x: nat, n: nat, j: nat)
    requires
        j < n,
    ensures
        le_bytes(x, n).len() == n,
        le_bytes(x, n)[j as int] as int == (x as int / pow(256, j)) % 256,
    decreases n,
{
    lemma_le_len(x, n);
    reveal(pow);
    if j > 0 {
        let k = (j - 1) as nat;
        lemma_le_len(x / 256, (n - 1) as nat);
        law_bytes_of_numbers(x / 256, (n - 1) as nat, k);
        assert(le_bytes(x, n)[j as int] == le_bytes(x / 256, (n - 1) as nat)[k as int]);
        lemma_pow_positive(256, k);
        lemma_div_denominator(x as int, 256, pow(256, k));
    }
}

/// A word is the sum of its bytes, each with a weight 256 times that of the one
/// before it.
pub proof fn law_words_of_bytes(s: Seq<u8>, i: int)
    requires
        0 <= i,
        8 * i + 8 <= s.len(),
    ensures
        word_at(s, i) == s[8 * i] + 0x100 * s[8 * i + 1] + 0x1_0000 * s[8 * i + 2] + 0x100_0000
            * s[8 * i + 3] + 0x1_0000_0000 * s[8 * i + 4] + 0x100_0000_0000 * s[8 * i + 5]
            + 0x1_0000_0000_0000 * s[8 * i + 6] + 0x100_0000_0000_0000 * s[8 * i + 7],
{
    let w = s.subrange(8 * i, 8 * i + 8);
    reveal_with_fuel(le_value, 9);
    assert(w.skip(1).skip(1) =~= w.skip(2));
    assert(w.skip(2).skip(1) =~= w.skip(3));
    assert(w.skip(3).skip(1) =~= w.skip(4));
    assert(w.skip(4).skip(1) =~= w.skip(5));
    assert(w.skip(5).skip(1) =~= w.skip(6));
    assert(w.skip(6).skip(1) =~= w.skip(7));
    assert(w.skip(7).skip(1) =~= Seq::empty());
}

/// Each word stands in its own eight bytes, at the place of its number.
pub proof fn law_words_in_a_row(words: Seq<u64>, i: int)
    requires
        0 <= i < words.len(),
    ensures
        words_bytes(words).len() == 8 * words.len(),
        words_bytes(words).subrange(8 * i, 8 * i + 8) == le_bytes(words[i] as nat, 8),
    decreases words.len(),
{
    let rest = words.drop_last();
    lemma_words_len(words);
    lemma_words_len(rest);
    lemma_le_len(words.last() as nat, 8);
    if i < rest.len() {
        law_words_in_a_row(rest, i);
        assert(words_bytes(words).subrange(8 * i, 8 * i + 8) =~= words_bytes(rest).subrange(
            8 * i,
            8 * i + 8,
        ));
    } else {
        assert(words_bytes(words).subrange(8 * i, 8 * i + 8) =~= le_bytes(
            words.last() as nat,
            8,
        ));
    }
}

/// The bytes of a word are read as that word.
pub proof fn law_words_come_back(s: Seq<u8>, i: int, x: u64)
    requires
        0 <= i,
        8 * i + 8 <= s.len(),
    ensures
        s.subrange(8 * i, 8 * i + 8) == le_bytes(x as nat, 8) ==> word_at(s, i) == x,
        words_at(s, (i + 1) as nat).len() == i + 1,
        words_at(s, (i + 1) as nat)[i] == word_at(s, i),
{
    lemma_u64_fits(x);
    lemma_le_round_trip(x as nat, 8);
}

} // verus!
