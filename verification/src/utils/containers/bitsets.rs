//! Fixed-size bit sets made of 64-bit words.
use vstd::prelude::*;
use vstd::std_specs::bits::{u64_trailing_zeros, axiom_u64_trailing_zeros};

verus! {

broadcast use axiom_u64_trailing_zeros;

/// Bit `b` of word `w`.
pub open spec fn word_bit(w: u64, b: u64) -> bool {
    (w >> b) & 1u64 == 1u64
}

pub proof fn lemma_word_or(w: u64, s: u64)
    requires
        s < 64,
    ensures
        forall|j: u64| j < 64 ==> #[trigger] word_bit(w | (1u64 << s), j) == (word_bit(w, j) || j == s),
{
    assert forall|j: u64| j < 64 implies #[trigger] word_bit(w | (1u64 << s), j) == (word_bit(w, j) || j == s) by {
        assert(((w | (1u64 << s)) >> j) & 1u64 == 1u64 <==> (((w >> j) & 1u64 == 1u64) || j == s)) by (bit_vector)
            requires
                s < 64,
                j < 64,
        ;
    }
}

pub proof fn lemma_word_and_not(w: u64, s: u64)
    requires
        s < 64,
    ensures
        forall|j: u64| j < 64 ==> #[trigger] word_bit(w & !(1u64 << s), j) == (word_bit(w, j) && j != s),
{
    assert forall|j: u64| j < 64 implies #[trigger] word_bit(w & !(1u64 << s), j) == (word_bit(w, j) && j != s) by {
        assert(((w & !(1u64 << s)) >> j) & 1u64 == 1u64 <==> (((w >> j) & 1u64 == 1u64) && j != s)) by (bit_vector)
            requires
                s < 64,
                j < 64,
        ;
    }
}

pub proof fn lemma_word_test(w: u64, s: u64)
    requires
        s < 64,
    ensures
        (w & (1u64 << s) != 0) == word_bit(w, s),
{
    assert((w & (1u64 << s) != 0) == ((w >> s) & 1u64 == 1u64)) by (bit_vector)
        requires
            s < 64,
    ;
}

pub proof fn lemma_word_zero(w: u64)
    ensures
        (w == 0) == (forall|j: u64| j < 64 ==> !#[trigger] word_bit(w, j)),
{
    if w != 0 {
        let t = u64_trailing_zeros(w);
        assert(word_bit(w, t as u64));
    } else {
        assert forall|j: u64| j < 64 implies !#[trigger] word_bit(w, j) by {
            assert(w == 0 ==> (w >> j) & 1u64 == 0) by (bit_vector);
        }
    }
}

#[derive(Debug, Copy, Clone)]
pub struct BitSet64<const W: usize> {
    words: [u64; W],
}

impl<const W: usize> BitSet64<W> {
    /// Whether bit `bit` is set.
    pub closed spec fn contains(&self, bit: int) -> bool {
        0 <= bit < W * 64 && word_bit(self.words[bit / 64], (bit % 64) as u64)
    }

    pub fn empty() -> (r: Self)
        requires
            W * 64 <= usize::MAX,
        ensures
            forall|b: int| !#[trigger] r.contains(b),
    {
        let mut words = [0u64; W];
        let mut i: usize = 0;
        while i < W
            invariant
                i <= W,
                forall|k: int| 0 <= k < i ==> #[trigger] words[k] == 0,
            decreases W - i,
        {
            words[i] = 0;
            i = i + 1;
        }
        let r = BitSet64 { words };
        assert forall|b: int| !#[trigger] r.contains(b) by {
            if 0 <= b < W * 64 {
                lemma_word_zero(0u64);
                assert(words[b / 64] == 0);
            }
        }
        r
    }

    pub fn clear(&mut self, bit: usize)
        requires
            bit < W * 64,
        ensures
            forall|b: int| #[trigger] final(self).contains(b) == (old(self).contains(b) && b != bit),
    {
        let word = bit >> 6;
        let shift = bit & 63;
        assert(word == bit / 64 && shift == bit % 64) by (bit_vector)
            requires
                word == bit >> 6,
                shift == bit & 63,
        ;
        let w = self.words[word];
        let nw = w & !(1u64 << (shift as u64));
        proof { lemma_word_and_not(w, shift as u64); }
        self.words[word] = nw;
        assert forall|b: int| #[trigger] self.contains(b) == (old(self).contains(b) && b != bit) by {
            if 0 <= b < W * 64 && b / 64 == word {
                assert(b % 64 < 64);
            }
        }
    }

    pub fn set(&mut self, bit: usize)
        requires
            bit < W * 64,
        ensures
            forall|b: int| #[trigger] final(self).contains(b) == (old(self).contains(b) || b == bit),
    {
        let word = bit >> 6;
        let shift = bit & 63;
        assert(word == bit / 64 && shift == bit % 64) by (bit_vector)
            requires
                word == bit >> 6,
                shift == bit & 63,
        ;
        let w = self.words[word];
        let nw = w | (1u64 << (shift as u64));
        proof { lemma_word_or(w, shift as u64); }
        self.words[word] = nw;
        assert forall|b: int| #[trigger] self.contains(b) == (old(self).contains(b) || b == bit) by {
            if 0 <= b < W * 64 && b / 64 == word {
                assert(b % 64 < 64);
            }
        }
    }

    pub fn get(self, bit: usize) -> (r: bool)
        requires
            bit < W * 64,
        ensures
            r == self.contains(bit as int),
    {
        let word = bit >> 6;
        let shift = bit & 63;
        assert(word == bit / 64 && shift == bit % 64) by (bit_vector)
            requires
                word == bit >> 6,
                shift == bit & 63,
        ;
        proof { lemma_word_test(self.words[word as int], shift as u64); }
        self.words[word] & (1u64 << (shift as u64)) != 0
    }

    /// The lowest set bit, if any.
    pub fn first_set(&self) -> (r: Option<usize>)
        requires
            W * 64 <= usize::MAX,
        ensures
            match r {
                Some(b) => b < W * 64 && self.contains(b as int) && forall|c: int| 0 <= c < b ==> !#[trigger] self.contains(c),
                None => forall|c: int| !#[trigger] self.contains(c),
            },
    {
        let mut i: usize = 0;
        while i < W
            invariant
                i <= W,
                W * 64 <= usize::MAX,
                forall|c: int| 0 <= c < i * 64 ==> !#[trigger] self.contains(c),
            decreases W - i,
        {
            let w = self.words[i];
            if w != 0 {
                let t = w.trailing_zeros();
                let b = i * 64 + t as usize;
                assert(b / 64 == i && b % 64 == t);
                assert forall|c: int| 0 <= c < b implies !#[trigger] self.contains(c) by {
                    if c >= i * 64 {
                        assert(c / 64 == i);
                        let j = (c % 64) as u64;
                        assert(j < t);
                    }
                }
                return Some(b);
            }
            proof { lemma_word_zero(w); }
            assert forall|c: int| 0 <= c < (i + 1) * 64 implies !#[trigger] self.contains(c) by {
                if c >= i * 64 {
                    assert(c / 64 == i);
                }
            }
            i = i + 1;
        }
        None
    }
}

} // verus!
