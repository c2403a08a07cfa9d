//! Size configuration: the block dimensions and the symbol alphabet.
use vstd::prelude::*;

verus! {

/// All elements of `s` differ pairwise.
pub open spec fn distinct_seq(s: Seq<u8>) -> bool {
    forall|i: int, j: int| 0 <= i < j < s.len() ==> s[i] != s[j]
}

/// The dimensions of one rectangular block.  `height * width` is both the
/// side length of the whole grid and the number of symbols.
#[derive(Debug, Clone, Copy, PartialEq, Eq, Structural)]
pub struct BlockSize {
    pub height: u8,
    pub width: u8,
}

pub struct GameSetting {
    pub block_size: BlockSize,
    pub answer_candidate: Vec<u8>,
}

impl GameSetting {
    pub open spec fn side_spec(&self) -> int {
        self.block_size.height * self.block_size.width
    }

    /// The block dimensions are positive, the side length fits in `u8`,
    /// and the alphabet is a permutation of `1..=side`.
    pub open spec fn wf(&self) -> bool {
        &&& 1 <= self.block_size.height
        &&& 1 <= self.block_size.width
        &&& self.side_spec() <= 255
        &&& self.answer_candidate@.len() == self.side_spec()
        &&& forall|i: int|
            0 <= i < self.answer_candidate@.len() ==> 1 <= #[trigger] self.answer_candidate@[i]
                <= self.side_spec()
        &&& distinct_seq(self.answer_candidate@)
    }

    /// A setting whose alphabet is `1, 2, .., height * width` in ascending
    /// order.
    pub fn new(block_size: BlockSize) -> (r: GameSetting)
        requires
            1 <= block_size.height,
            1 <= block_size.width,
            block_size.height * block_size.width <= 255,
        ensures
            r.wf(),
            r.block_size == block_size,
            forall|i: int|
                0 <= i < r.answer_candidate@.len() ==> #[trigger] r.answer_candidate@[i] == i + 1,
    {
        let side: u8 = block_size.height * block_size.width;
        let mut answer_candidate: Vec<u8> = Vec::new();
        let mut v: u16 = 1;
        while v <= side as u16
            invariant
                1 <= v <= side as u16 + 1,
                side == block_size.height * block_size.width,
                side <= 255,
                answer_candidate@.len() == v - 1,
                forall|i: int|
                    0 <= i < answer_candidate@.len() ==> #[trigger] answer_candidate@[i] == i + 1,
            decreases side as int + 1 - v,
        {
            answer_candidate.push(v as u8);
            v = v + 1;
        }
        GameSetting { block_size, answer_candidate }
    }

    /// A setting with a caller-chosen ordering of the symbol alphabet (a
    /// permutation of `1..=side`); the ordering steers which candidate the
    /// solver tries first.
    pub fn new_with_answer_candidate(block_size: BlockSize, answer_candidate: Vec<u8>) -> (r:
        GameSetting)
        requires
            1 <= block_size.height,
            1 <= block_size.width,
            block_size.height * block_size.width <= 255,
            answer_candidate@.len() == block_size.height * block_size.width,
            forall|i: int|
                0 <= i < answer_candidate@.len() ==> 1 <= #[trigger] answer_candidate@[i]
                    <= block_size.height * block_size.width,
            distinct_seq(answer_candidate@),
        ensures
            r.wf(),
            r.block_size == block_size,
            r.answer_candidate == answer_candidate,
    {
        GameSetting { block_size, answer_candidate }
    }

    pub fn side_size(&self) -> (r: u8)
        requires
            self.wf(),
        ensures
            r == self.side_spec(),
    {
        self.block_size.height * self.block_size.width
    }

    /// A fresh copy of the symbol alphabet.
    pub fn answer_candidate(&self) -> (r: Vec<u8>)
        ensures
            r@ == self.answer_candidate@,
    {
        copy_u8_vec(&self.answer_candidate)
    }

    pub fn block_height(&self) -> (r: u8)
        ensures
            r == self.block_size.height,
    {
        self.block_size.height
    }

    pub fn block_width(&self) -> (r: u8)
        ensures
            r == self.block_size.width,
    {
        self.block_size.width
    }

    pub fn block_size(&self) -> (r: BlockSize)
        ensures
            r == self.block_size,
    {
        self.block_size
    }
}

impl GameSetting {
    /// Same configuration, compared through the alphabet's view.
    pub open spec fn eq_view(&self, other: &GameSetting) -> bool {
        self.block_size == other.block_size && self.answer_candidate@ == other.answer_candidate@
    }
}

impl Clone for GameSetting {
    fn clone(&self) -> (r: GameSetting)
        ensures
            r.eq_view(self),
    {
        GameSetting {
            block_size: self.block_size,
            answer_candidate: copy_u8_vec(&self.answer_candidate),
        }
    }
}

/// The set `{1, .., k}` of symbols.
pub open spec fn symbols_upto(k: int) -> Set<u8>
    decreases k,
{
    if k <= 0 || k > 255 {
        Set::empty()
    } else {
        symbols_upto(k - 1).insert(k as u8)
    }
}

pub proof fn lemma_symbols_upto(k: int)
    requires
        0 <= k <= 255,
    ensures
        symbols_upto(k).finite(),
        symbols_upto(k).len() == k,
        forall|x: u8| symbols_upto(k).contains(x) <==> 1 <= x <= k,
    decreases k,
{
    if k > 0 {
        lemma_symbols_upto(k - 1);
        assert(!symbols_upto(k - 1).contains(k as u8));
    }
}

/// A list of `side` pairwise distinct symbols drawn from `1..=side` holds
/// every one of them.
pub proof fn lemma_distinct_covers(s: Seq<u8>, side: int, v: u8)
    requires
        distinct_seq(s),
        s.len() == side,
        0 <= side <= 255,
        forall|q: int| 0 <= q < s.len() ==> 1 <= #[trigger] s[q] <= side,
        1 <= v <= side,
    ensures
        s.contains(v),
{
    lemma_symbols_upto(side);
    if !s.contains(v) {
        let missing = symbols_upto(side).remove(v);
        assert(s.to_set().subset_of(missing)) by {
            assert forall|x: u8| s.to_set().contains(x) implies missing.contains(x) by {
                assert(s.contains(x));
                let q = choose|q: int| 0 <= q < s.len() && s[q] == x;
                assert(1 <= x <= side && x != v);
            }
        }
        assert(s.no_duplicates()) by {
            assert forall|i: int, j: int|
                0 <= i < s.len() && 0 <= j < s.len() && i != j implies s[i] != s[j] by {
                if i < j {
                } else {
                    assert(s[j] != s[i]);
                }
            }
        }
        s.unique_seq_to_set();
        vstd::set::axiom_set_remove_len(symbols_upto(side), v);
        assert(missing.len() == side - 1);
        vstd::set_lib::lemma_len_subset(s.to_set(), missing);
        assert(side <= side - 1);
    }
}

/// Whether `v` holds `x`.
pub fn contains_u8(v: &Vec<u8>, x: u8) -> (r: bool)
    ensures
        r == v@.contains(x),
{
    let mut i: usize = 0;
    while i < v.len()
        invariant
            0 <= i <= v@.len(),
            forall|j: int| 0 <= j < i ==> v@[j] != x,
        decreases v@.len() - i,
    {
        if v[i] == x {
            return true;
        }
        i = i + 1;
    }
    false
}

/// An element-wise copy of a byte vector.
pub fn copy_u8_vec(v: &Vec<u8>) -> (r: Vec<u8>)
    ensures
        r@ == v@,
{
    let mut r: Vec<u8> = Vec::new();
    let mut i: usize = 0;
    while i < v.len()
        invariant
            0 <= i <= v.len(),
            r@ =~= v@.subrange(0, i as int),
        decreases v.len() - i,
    {
        r.push(v[i]);
        i = i + 1;
    }
    proof {
        assert(r@ =~= v@);
    }
    r
}

} // verus!
