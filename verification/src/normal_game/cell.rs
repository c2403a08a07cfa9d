//! One grid square: its position, its remaining candidate symbols, and its
//! confirmed answer, if any.
use vstd::prelude::*;

verus! {

use crate::normal_game::setting::distinct_seq;
use crate::normal_game::setting::GameSetting;

/// Position(x, y)
#[derive(Debug, PartialEq, Eq, Structural, Copy, Clone)]
pub struct Position(pub u8, pub u8);

impl Position {
    pub fn new(x: u8, y: u8) -> (r: Position)
        ensures
            r.0 == x,
            r.1 == y,
    {
        Position(x, y)
    }

    pub fn x(&self) -> (r: u8)
        ensures
            r == self.0,
    {
        self.0
    }

    pub fn y(&self) -> (r: u8)
        ensures
            r == self.1,
    {
        self.1
    }

    /// Horizontal translation; the new coordinate must stay a coordinate.
    pub fn move_x(&self, count: i16) -> (r: Position)
        requires
            0 <= self.0 + count <= 255,
        ensures
            r.0 == self.0 + count,
            r.1 == self.1,
    {
        let x: i16 = self.0 as i16 + count;
        Position(x as u8, self.1)
    }

    /// Vertical translation; the new coordinate must stay a coordinate.
    pub fn move_y(&self, count: i16) -> (r: Position)
        requires
            0 <= self.1 + count <= 255,
        ensures
            r.0 == self.0,
            r.1 == self.1 + count,
    {
        let y: i16 = self.1 as i16 + count;
        Position(self.0, y as u8)
    }
}

/// The index at which the binary search of `remove_answer_candidate` stops
/// when looking for `t` between `left` and `right`.  On a list kept in
/// ascending order this finds `t` exactly when `t` is present; on another
/// ordering the probe sequence itself is the meaning, which the search for
/// a candidate to delete deliberately follows.
pub open spec fn bsearch_spec(s: Seq<u8>, t: u8, left: int, right: int) -> Option<int>
    decreases right - left,
{
    if left >= right || right > s.len() || left < 0 {
        None
    } else {
        let mid = left + (right - left) / 2;
        if s[mid] < t {
            bsearch_spec(s, t, mid + 1, right)
        } else if s[mid] > t {
            bsearch_spec(s, t, left, mid)
        } else {
            Some(mid)
        }
    }
}

pub proof fn lemma_bsearch_spec_hit(s: Seq<u8>, t: u8, left: int, right: int)
    ensures
        bsearch_spec(s, t, left, right) matches Some(i) ==> left <= i < right <= s.len() && s[i]
            == t,
    decreases right - left,
{
    if left >= right || right > s.len() || left < 0 {
    } else {
        let mid = left + (right - left) / 2;
        if s[mid] < t {
            lemma_bsearch_spec_hit(s, t, mid + 1, right);
        } else if s[mid] > t {
            lemma_bsearch_spec_hit(s, t, left, mid);
        }
    }
}

/// The candidate list after deleting `t` from `s`: the element found by the
/// binary search goes away, and where the search misses the list stays.
pub open spec fn remove_candidate_spec(s: Seq<u8>, t: u8) -> Seq<u8> {
    match bsearch_spec(s, t, 0, s.len() as int) {
        Some(i) => s.remove(i),
        None => s,
    }
}

/// Deleting a candidate keeps the list distinct and inside the original
/// elements, and deleting the same candidate again changes nothing.
pub proof fn lemma_remove_candidate_preserves(s: Seq<u8>, t: u8)
    requires
        distinct_seq(s),
    ensures
        distinct_seq(remove_candidate_spec(s, t)),
        forall|x: u8| remove_candidate_spec(s, t).contains(x) ==> s.contains(x),
        forall|x: u8| x != t && s.contains(x) ==> remove_candidate_spec(s, t).contains(x),
        remove_candidate_spec(s, t).len() <= s.len(),
        remove_candidate_spec(remove_candidate_spec(s, t), t) == remove_candidate_spec(s, t),
{
    lemma_bsearch_spec_hit(s, t, 0, s.len() as int);
    match bsearch_spec(s, t, 0, s.len() as int) {
        Some(i) => {
            let r = s.remove(i);
            assert forall|x: u8| r.contains(x) implies s.contains(x) by {
                let j = choose|j: int| 0 <= j < r.len() && r[j] == x;
                if j < i {
                    assert(s[j] == x);
                } else {
                    assert(s[j + 1] == x);
                }
            }
            assert forall|x: u8| x != t && s.contains(x) implies r.contains(x) by {
                let j = choose|j: int| 0 <= j < s.len() && s[j] == x;
                assert(j != i);
                if j < i {
                    assert(r[j] == x);
                } else {
                    assert(r[j - 1] == x);
                }
            }
            assert forall|j1: int, j2: int| 0 <= j1 < j2 < r.len() implies r[j1] != r[j2] by {
                if j2 < i {
                } else if j1 < i {
                    assert(r[j1] == s[j1] && r[j2] == s[j2 + 1]);
                } else {
                    assert(r[j1] == s[j1 + 1] && r[j2] == s[j2 + 1]);
                }
            }
            assert(!r.contains(t)) by {
                if r.contains(t) {
                    let j = choose|j: int| 0 <= j < r.len() && r[j] == t;
                    if j < i {
                        assert(s[j] == t && s[i] == t);
                    } else {
                        assert(s[j + 1] == t && s[i] == t);
                    }
                }
            }
            lemma_bsearch_spec_hit(r, t, 0, r.len() as int);
            match bsearch_spec(r, t, 0, r.len() as int) {
                Some(i2) => {
                    assert(r.contains(t)) by {
                        assert(r[i2] == t);
                    }
                },
                None => {},
            }
        },
        None => {},
    }
}

pub struct Cell {
    pub pos: Position,
    pub answer_candidate: Vec<u8>,
    pub answer: Option<u8>,
}

impl Cell {
    /// Candidates are pairwise distinct symbols of the alphabet's range,
    /// an answered cell carries no candidates, and an answer is a symbol.
    pub open spec fn wf(&self, side: int) -> bool {
        &&& distinct_seq(self.answer_candidate@)
        &&& forall|i: int|
            0 <= i < self.answer_candidate@.len() ==> 1 <= #[trigger] self.answer_candidate@[i]
                <= side
        &&& self.answer is Some ==> self.answer_candidate@.len() == 0
        &&& self.answer matches Some(v) ==> 1 <= v <= side
    }

    pub fn new(pos: Position, answer_candidate: Vec<u8>) -> (r: Cell)
        ensures
            r.pos == pos,
            r.answer_candidate == answer_candidate,
            r.answer is None,
    {
        Cell { pos, answer_candidate, answer: None }
    }

    pub fn pos(&self) -> (r: Position)
        ensures
            r == self.pos,
    {
        self.pos
    }

    pub fn move_to(&mut self, pos: Position)
        ensures
            final(self).pos == pos,
            final(self).answer_candidate == old(self).answer_candidate,
            final(self).answer == old(self).answer,
    {
        self.pos = pos;
    }

    pub fn answer_candidate(&self) -> (r: &Vec<u8>)
        ensures
            r@ == self.answer_candidate@,
    {
        &self.answer_candidate
    }

    pub fn answer(&self) -> (r: Option<u8>)
        ensures
            r == self.answer,
    {
        self.answer
    }

    /// Deletes the specified candidate answer, looking it up with the same
    /// binary probe sequence whatever the list's ordering.
    pub fn remove_answer_candidate(&mut self, target: u8)
        ensures
            final(self).pos == old(self).pos,
            final(self).answer == old(self).answer,
            final(self).answer_candidate@ == remove_candidate_spec(
                old(self).answer_candidate@,
                target,
            ),
    {
        let ghost s = self.answer_candidate@;
        let mut left: usize = 0;
        let mut right: usize = self.answer_candidate.len();
        let mut found: Option<usize> = None;
        while left < right
            invariant_except_break
                0 <= left <= right <= self.answer_candidate@.len(),
                self.answer_candidate@ == s,
                found is None,
                bsearch_spec(s, target, left as int, right as int) == bsearch_spec(
                    s,
                    target,
                    0,
                    s.len() as int,
                ),
            ensures
                self.answer_candidate@ == s,
                match found {
                    None => bsearch_spec(s, target, 0, s.len() as int) is None,
                    Some(i) => bsearch_spec(s, target, 0, s.len() as int) == Some(i as int),
                },
            decreases right - left,
        {
            let mid = left + (right - left) / 2;
            let v = self.answer_candidate[mid];
            proof {
                assert(mid == left + (right as int - left) / 2);
                assert(v == s[mid as int]);
            }
            if v < target {
                proof {
                    assert(bsearch_spec(s, target, left as int, right as int) == bsearch_spec(
                        s,
                        target,
                        mid as int + 1,
                        right as int,
                    ));
                }
                left = mid + 1;
            } else if v > target {
                proof {
                    assert(bsearch_spec(s, target, left as int, right as int) == bsearch_spec(
                        s,
                        target,
                        left as int,
                        mid as int,
                    ));
                }
                right = mid;
            } else {
                proof {
                    assert(bsearch_spec(s, target, left as int, right as int) == Some(mid as int));
                }
                found = Some(mid);
                break ;
            }
        }
        match found {
            Some(i) => {
                proof {
                    lemma_bsearch_spec_hit(s, target, 0, s.len() as int);
                }
                self.answer_candidate.remove(i);
            },
            None => {},
        }
    }

    /// The lone candidate of a cell that has exactly one left.
    pub fn get_lonely(&self) -> (r: Option<u8>)
        ensures
            r == if self.answer_candidate@.len() == 1 {
                Some(self.answer_candidate@[0])
            } else {
                None::<u8>
            },
    {
        if self.answer_candidate.len() == 1 {
            return Some(self.answer_candidate[0]);
        }
        None
    }

    /// Fill in the cell with an answer and clear the candidate list.
    pub fn set_answer(&mut self, answer: u8)
        ensures
            final(self).pos == old(self).pos,
            final(self).answer == Some(answer),
            final(self).answer_candidate@.len() == 0,
    {
        self.answer = Some(answer);
        self.answer_candidate.clear();
    }

    /// Clears the answer and hands back the previous one.
    pub fn remove_answer(&mut self) -> (r: Option<u8>)
        ensures
            r == old(self).answer,
            final(self).pos == old(self).pos,
            final(self).answer is None,
            final(self).answer_candidate == old(self).answer_candidate,
    {
        let answer = self.answer;
        self.answer = None;
        answer
    }

    pub fn has_answer_candidate(&self, candidate: u8) -> (r: bool)
        ensures
            r == self.answer_candidate@.contains(candidate),
    {
        let mut i: usize = 0;
        while i < self.answer_candidate.len()
            invariant
                0 <= i <= self.answer_candidate@.len(),
                forall|j: int| 0 <= j < i ==> self.answer_candidate@[j] != candidate,
            decreases self.answer_candidate@.len() - i,
        {
            if self.answer_candidate[i] == candidate {
                return true;
            }
            i = i + 1;
        }
        false
    }

    pub fn answer_candidate_count(&self) -> (r: usize)
        ensures
            r == self.answer_candidate@.len(),
    {
        self.answer_candidate.len()
    }

    /// Replaces the candidate list wholesale (used when an undo recomputes
    /// it from the groups).
    pub fn restore_answer_candidate(&mut self, answer_candidate: &Vec<u8>)
        ensures
            final(self).pos == old(self).pos,
            final(self).answer == old(self).answer,
            final(self).answer_candidate@ == answer_candidate@,
    {
        self.answer_candidate = crate::normal_game::setting::copy_u8_vec(answer_candidate);
    }
}

/// All cells of a fresh grid, row-major, each carrying the full alphabet.
pub fn create_cells(setting: &GameSetting) -> (r: Vec<Cell>)
    requires
        setting.wf(),
    ensures
        r@.len() == setting.side_spec() * setting.side_spec(),
        forall|i: int|
            0 <= i < r@.len() ==> (#[trigger] r@[i]).pos.0 == i % setting.side_spec() && r@[i].pos.1
                == i / setting.side_spec(),
        forall|i: int| 0 <= i < r@.len() ==> (#[trigger] r@[i]).answer is None,
        forall|i: int|
            0 <= i < r@.len() ==> (#[trigger] r@[i]).answer_candidate@ == setting.answer_candidate@,
{
    let side = setting.side_size();
    let mut cells: Vec<Cell> = Vec::new();
    let mut y: u8 = 0;
    while y < side
        invariant
            0 <= y <= side,
            side == setting.side_spec(),
            setting.wf(),
            cells@.len() == y * side,
            forall|i: int|
                0 <= i < cells@.len() ==> (#[trigger] cells@[i]).pos.0 == i % side as int
                    && cells@[i].pos.1 == i / side as int,
            forall|i: int| 0 <= i < cells@.len() ==> (#[trigger] cells@[i]).answer is None,
            forall|i: int|
                0 <= i < cells@.len() ==> (#[trigger] cells@[i]).answer_candidate@
                    == setting.answer_candidate@,
        decreases side - y,
    {
        let mut x: u8 = 0;
        while x < side
            invariant
                0 <= x <= side,
                0 <= y < side,
                side == setting.side_spec(),
                setting.wf(),
                cells@.len() == y * side + x,
                forall|i: int|
                    0 <= i < cells@.len() ==> (#[trigger] cells@[i]).pos.0 == i % side as int
                        && cells@[i].pos.1 == i / side as int,
                forall|i: int| 0 <= i < cells@.len() ==> (#[trigger] cells@[i]).answer is None,
                forall|i: int|
                    0 <= i < cells@.len() ==> (#[trigger] cells@[i]).answer_candidate@
                        == setting.answer_candidate@,
            decreases side - x,
        {
            let c = Cell {
                pos: Position(x, y),
                answer_candidate: setting.answer_candidate(),
                answer: None,
            };
            proof {
                let n = cells@.len() as int;
                assert(n == y * side + x);
                vstd::arithmetic::div_mod::lemma_fundamental_div_mod_converse(
                    n,
                    side as int,
                    y as int,
                    x as int,
                );
            }
            cells.push(c);
            x = x + 1;
        }
        proof {
            assert((y + 1) * side as int == y * side + side) by (nonlinear_arith);
        }
        y = y + 1;
    }
    proof {
        assert(side * side == setting.side_spec() * setting.side_spec()) by (nonlinear_arith)
            requires side == setting.side_spec();
    }
    cells
}

} // verus!
