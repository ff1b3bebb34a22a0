//! The ancestor set of one tag node: a fixed-width bit vector with one bit per
//! possible tag id, set for the node itself and each of its ancestors. Sized
//! once at registry construction, so that the ancestry test is a single bit
//! probe regardless of hierarchy depth.

use vstd::prelude::*;

verus! {

/// Number of 64-bit words needed to hold one bit per id up to `cap`.
pub open spec fn num_words(cap: int) -> int {
    (cap + 63) / 64
}

pub proof fn lemma_num_words(cap: int)
    requires
        0 <= cap,
    ensures
        cap <= num_words(cap) * 64 <= cap + 63,
{
    let d = (cap + 63) / 64;
    let r = (cap + 63) % 64;
    assert(cap + 63 == 64 * d + r);
    assert(0 <= r < 64);
}

/// One node of the hierarchy: the precomputed set of ids that are this node or
/// one of its ancestors.
#[derive(Debug)]
pub struct TagNode {
    ancestors: Vec<u64>,
}

impl TagNode {
    pub closed spec fn words(self) -> Seq<u64> {
        self.ancestors@
    }

    pub open spec fn word_count(self) -> int {
        self.words().len() as int
    }

    /// Whether bit `i` of the ancestor set is set.
    pub open spec fn spec_has(self, i: int) -> bool {
        &&& 0 <= i < self.word_count() * 64
        &&& (self.words()[i / 64] >> ((i % 64) as u64)) & 1 == 1
    }

    /// An all-zero ancestor set of `words` words.
    pub(crate) fn empty(words: usize) -> (r: TagNode)
        ensures
            r.word_count() == words as int,
            forall|j: int| !r.spec_has(j),
    {
        let mut v: Vec<u64> = Vec::new();
        let mut k: usize = 0;
        while k < words
            invariant
                v@.len() == k as int,
                k <= words,
                forall|i: int| 0 <= i < k as int ==> v@[i] == 0u64,
            decreases words - k,
        {
            v.push(0);
            k = k + 1;
        }
        let r = TagNode { ancestors: v };
        proof {
            assert forall|j: int| !r.spec_has(j) by {
                if 0 <= j < r.word_count() * 64 {
                    lemma_div_mod_64(j, r.word_count());
                    let b = (j % 64) as u64;
                    assert((0u64 >> b) & 1 == 0) by (bit_vector);
                }
            }
        }
        r
    }

    /// A copy of this ancestor set (a new node starts from its parent's set).
    pub(crate) fn duplicate(&self) -> (r: TagNode)
        ensures
            r.words() == self.words(),
    {
        let n = self.ancestors.len();
        let mut v: Vec<u64> = Vec::new();
        let mut k: usize = 0;
        while k < n
            invariant
                v@.len() == k as int,
                k <= n,
                n as int == self.words().len(),
                forall|i: int| 0 <= i < k as int ==> v@[i] == self.words()[i],
            decreases n - k,
        {
            v.push(self.ancestors[k]);
            k = k + 1;
        }
        proof {
            assert(v@ =~= self.words());
        }
        TagNode { ancestors: v }
    }

    /// Set bit `idx`.
    pub(crate) fn set_bit(&mut self, idx: usize)
        requires
            idx < old(self).word_count() * 64,
        ensures
            final(self).word_count() == old(self).word_count(),
            forall|j: int|
                final(self).spec_has(j) <==> (old(self).spec_has(j) || j == idx as int),
    {
        proof {
            lemma_div_mod_64(idx as int, old(self).word_count());
        }
        let word: usize = idx / 64;
        let bit: u64 = (idx % 64) as u64;
        let w: u64 = self.ancestors[word];
        self.ancestors[word] = w | (1u64 << bit);
        proof {
            let new_self = *final(self);
            let prev = *old(self);
            assert forall|j: int|
                new_self.spec_has(j) <==> (prev.spec_has(j) || j == idx as int) by {
                if 0 <= j < prev.word_count() * 64 {
                    lemma_div_mod_64(j, prev.word_count());
                    let jw = j / 64;
                    let jb = (j % 64) as u64;
                    if jw == word as int {
                        lemma_or_bit(w, bit, jb);
                        assert(j == idx as int <==> jb == bit);
                    }
                } else {
                    assert(!new_self.spec_has(j));
                    assert(!prev.spec_has(j));
                    assert(j != idx as int);
                }
            }
        }
    }

    /// Test bit `idx`.
    pub(crate) fn get_bit(&self, idx: usize) -> (r: bool)
        requires
            idx < self.word_count() * 64,
        ensures
            r == self.spec_has(idx as int),
    {
        proof {
            lemma_div_mod_64(idx as int, self.word_count());
        }
        let word: usize = idx / 64;
        let bit: u64 = (idx % 64) as u64;
        ((self.ancestors[word] >> bit) & 1) == 1
    }
}

proof fn lemma_div_mod_64(i: int, wc: int)
    requires
        0 <= i < wc * 64,
    ensures
        0 <= i / 64 < wc,
        0 <= i % 64 < 64,
        i == 64 * (i / 64) + i % 64,
{
    assert(i == 64 * (i / 64) + i % 64);
    assert(0 <= i % 64 < 64);
    if i / 64 >= wc {
        assert(i >= 64 * wc) by (nonlinear_arith)
            requires
                i / 64 >= wc,
                i == 64 * (i / 64) + i % 64,
                0 <= i % 64,
        ;
    }
}

proof fn lemma_or_bit(x: u64, b: u64, j: u64)
    requires
        b < 64,
        j < 64,
    ensures
        ((x | (1u64 << b)) >> b) & 1 == 1,
        j != b ==> ((x | (1u64 << b)) >> j) & 1 == (x >> j) & 1,
{
    assert(((x | (1u64 << b)) >> b) & 1 == 1) by (bit_vector)
        requires
            b < 64,
    ;
    assert(j != b && j < 64 && b < 64 ==> ((x | (1u64 << b)) >> j) & 1 == (x >> j) & 1)
        by (bit_vector);
}

} // verus!
