//! The game grid: all cells (row-major) plus the row, column and block
//! groups that constrain them.
use vstd::prelude::*;

pub mod cell;
pub mod group;
pub mod remove_answer;
pub mod setting;
pub mod shuffle;
pub mod text;

verus! {

use crate::normal_game::cell::Cell;
use crate::normal_game::cell::Position;
use crate::normal_game::group::Group;
use crate::normal_game::setting::GameSetting;

/// Number of cells of `s` that carry an answer.
pub open spec fn count_answered(s: Seq<Cell>) -> int
    decreases s.len(),
{
    if s.len() == 0 {
        0
    } else {
        count_answered(s.drop_last()) + if s.last().answer is Some {
            1int
        } else {
            0
        }
    }
}

pub proof fn lemma_count_answered_bounds(s: Seq<Cell>)
    ensures
        0 <= count_answered(s) <= s.len(),
    decreases s.len(),
{
    if s.len() > 0 {
        lemma_count_answered_bounds(s.drop_last());
    }
}

/// An update of one cell changes the count by the difference of the two
/// cells' answered bits.
pub proof fn lemma_count_answered_update(s: Seq<Cell>, i: int, c: Cell)
    requires
        0 <= i < s.len(),
    ensures
        count_answered(s.update(i, c)) == count_answered(s) - (if s[i].answer is Some {
            1int
        } else {
            0
        }) + (if c.answer is Some {
            1int
        } else {
            0
        }),
    decreases s.len(),
{
    let t = s.update(i, c);
    if i == s.len() - 1 {
        assert(t.drop_last() =~= s.drop_last());
    } else {
        assert(t.drop_last() =~= s.drop_last().update(i, c));
        lemma_count_answered_update(s.drop_last(), i, c);
    }
}

/// A fully answered arena counts every cell.
pub proof fn lemma_count_answered_all(s: Seq<Cell>)
    requires
        forall|i: int| 0 <= i < s.len() ==> (#[trigger] s[i].answer) is Some,
    ensures
        count_answered(s) == s.len(),
    decreases s.len(),
{
    if s.len() > 0 {
        lemma_count_answered_all(s.drop_last());
    }
}

pub proof fn lemma_count_answered_full(s: Seq<Cell>)
    requires
        count_answered(s) == s.len(),
    ensures
        forall|i: int| 0 <= i < s.len() ==> (#[trigger] s[i].answer) is Some,
    decreases s.len(),
{
    if s.len() > 0 {
        lemma_count_answered_bounds(s.drop_last());
        lemma_count_answered_full(s.drop_last());
        assert forall|i: int| 0 <= i < s.len() implies (#[trigger] s[i].answer) is Some by {
            if i < s.len() - 1 {
                assert(s.drop_last()[i] == s[i]);
            } else {
                assert(s.last() == s[i]);
            }
        }
    }
}

pub struct NormalGame {
    pub setting: GameSetting,
    pub cells: Vec<Cell>,
    pub groups: Vec<Group>,
    pub answered_count: u32,
}

#[derive(Debug, PartialEq, Eq, Structural, Copy, Clone)]
pub enum GameState {
    Solving,
    Complete,
    Failure,
}

impl NormalGame {
    pub open spec fn side(&self) -> int {
        self.setting.side_spec()
    }

    /// Index in `cells` of the cell standing at `(x, y)`.
    pub open spec fn cell_index(&self, x: int, y: int) -> int {
        y * self.side() + x
    }

    pub open spec fn pos_in_range(&self, pos: Position) -> bool {
        pos.0 < self.side() && pos.1 < self.side()
    }

    /// Well-formedness: the setting is sound, the arena holds `side * side`
    /// cells in row-major order, the `3 * side` groups hold exactly the
    /// member indices dictated by the size configuration, and the answered
    /// counter matches the cells.
    pub open spec fn wf(&self) -> bool {
        &&& self.setting.wf()
        &&& self.cells@.len() == self.side() * self.side()
        &&& forall|i: int|
            0 <= i < self.cells@.len() ==> (#[trigger] self.cells@[i]).pos.0 == i % self.side()
                && self.cells@[i].pos.1 == i / self.side()
        &&& forall|i: int| 0 <= i < self.cells@.len() ==> (#[trigger] self.cells@[i]).wf(self.side())
        &&& self.groups@.len() == 3 * self.side()
        &&& forall|k: int|
            0 <= k < self.groups@.len() ==> (#[trigger] self.groups@[k]).wf_members(
                self.setting.block_size.height as int,
                self.setting.block_size.width as int,
                k,
            )
        &&& forall|k: int|
            0 <= k < self.groups@.len() ==> (#[trigger] self.groups@[k]).wf_candidates(self.side())
        &&& self.answered_count == count_answered(self.cells@)
    }

    pub open spec fn answer_at(&self, x: int, y: int) -> Option<u8> {
        self.cells@[self.cell_index(x, y)].answer
    }

    /// The three groups that contain the cell at `pos`: its row, its
    /// column, and its block.
    pub open spec fn row_group_of(&self, pos: Position) -> int {
        pos.1 as int
    }

    pub open spec fn col_group_of(&self, pos: Position) -> int {
        self.side() + pos.0
    }

    pub open spec fn block_group_of(&self, pos: Position) -> int {
        2 * self.side() + (pos.1 as int / self.setting.block_size.height as int)
            * self.setting.block_size.height + (pos.0 as int / self.setting.block_size.width as int)
    }

    pub open spec fn is_group_of(&self, pos: Position, k: int) -> bool {
        k == self.row_group_of(pos) || k == self.col_group_of(pos) || k == self.block_group_of(pos)
    }

    pub fn new(setting: GameSetting) -> (r: NormalGame)
        requires
            setting.wf(),
        ensures
            r.wf(),
            r.setting == setting,
            r.answered_count == 0,
            r.cells@.len() == setting.side_spec() * setting.side_spec(),
            forall|i: int| 0 <= i < r.cells@.len() ==> (#[trigger] r.cells@[i]).answer is None,
            forall|i: int|
                0 <= i < r.cells@.len() ==> (#[trigger] r.cells@[i]).answer_candidate@
                    == setting.answer_candidate@,
            forall|k: int|
                0 <= k < r.groups@.len() ==> (#[trigger] r.groups@[k]).answer_candidate@
                    == setting.answer_candidate@,
            r.sound(),
    {
        let cells = cell::create_cells(&setting);
        let groups = group::create_groups(&cells, &setting);
        let r = NormalGame { setting, cells, groups, answered_count: 0 };
        proof {
            lemma_count_answered_empty(r.cells@);
            assert(r.candidates_complete()) by {
                assert forall|i: int, x: u8|
                    0 <= i < r.cells@.len() && (#[trigger] r.cells@[i]).answer is None && 1 <= x
                        <= r.side() && r.symbol_allowed(i, x)
                    implies #[trigger] r.cells@[i].answer_candidate@.contains(x) by {
                    crate::normal_game::setting::lemma_distinct_covers(
                        r.setting.answer_candidate@,
                        r.side(),
                        x,
                    );
                }
            }
            assert(r.remaining_complete()) by {
                assert forall|k: int, x: u8|
                    0 <= k < r.groups@.len() && 1 <= x <= r.side() && !(
                    #[trigger] r.groups@[k]).some_member_answers(r.cells@, x)
                    implies #[trigger] r.groups@[k].answer_candidate@.contains(x) by {
                    crate::normal_game::setting::lemma_distinct_covers(
                        r.setting.answer_candidate@,
                        r.side(),
                        x,
                    );
                }
            }
            assert(r.unconfirmed_only()) by {
                assert forall|k: int, x: u8|
                    0 <= k < r.groups@.len()
                        && #[trigger] r.groups@[k].answer_candidate@.contains(x)
                    implies !r.groups@[k].some_member_answers(r.cells@, x) by {
                    lemma_groups_sane(&r, k);
                    if r.groups@[k].some_member_answers(r.cells@, x) {
                        let m = choose|m: int|
                            0 <= m < r.groups@[k].cells@.len()
                                && r.cells@[#[trigger] r.groups@[k].cells@[m] as int].answer
                                == Some(x);
                        assert(r.cells@[r.groups@[k].cells@[m] as int].answer is None);
                    }
                }
            }
        }
        r
    }

    pub fn setting(&self) -> (r: &GameSetting)
        ensures
            r == &self.setting,
    {
        &self.setting
    }

    pub fn cells(&self) -> (r: &Vec<Cell>)
        ensures
            r@ == self.cells@,
    {
        &self.cells
    }

    pub fn groups(&self) -> (r: &Vec<Group>)
        ensures
            r@ == self.groups@,
    {
        &self.groups
    }

    pub fn answered_count(&self) -> (r: u32)
        ensures
            r == self.answered_count,
    {
        self.answered_count
    }

    /// `p` and `q` lie in the same row, the same column or the same block.
    pub open spec fn same_unit(&self, p: Position, q: Position) -> bool {
        let h = self.setting.block_size.height as int;
        let w = self.setting.block_size.width as int;
        ||| p.1 == q.1
        ||| p.0 == q.0
        ||| (p.1 as int / h == q.1 as int / h && p.0 as int / w == q.0 as int / w)
    }

    /// What `set_answer` does when the target cell was still open: the cell
    /// takes the answer and loses its candidates, the symbol is deleted
    /// from the candidates of every cell sharing a row, column or block,
    /// and from the remaining list of those three groups.
    pub open spec fn set_answer_filled(&self, post: NormalGame, pos: Position, answer: u8) -> bool {
        let i = self.cell_index(pos.0 as int, pos.1 as int);
        &&& post.answered_count == self.answered_count + 1
        &&& post.cells@.len() == self.cells@.len()
        &&& post.groups@.len() == self.groups@.len()
        &&& forall|j: int|
            0 <= j < post.cells@.len() ==> (#[trigger] post.cells@[j]).pos == self.cells@[j].pos
        &&& post.cells@[i].answer == Some(answer)
        &&& post.cells@[i].answer_candidate@.len() == 0
        &&& forall|j: int|
            0 <= j < post.cells@.len() && j != i ==> (#[trigger] post.cells@[j]).answer
                == self.cells@[j].answer
        &&& forall|j: int|
            0 <= j < post.cells@.len() && j != i ==> (#[trigger] post.cells@[j]).answer_candidate@
                == if self.same_unit(pos, self.cells@[j].pos) {
                cell::remove_candidate_spec(self.cells@[j].answer_candidate@, answer)
            } else {
                self.cells@[j].answer_candidate@
            }
        &&& forall|k: int|
            0 <= k < post.groups@.len() ==> (#[trigger] post.groups@[k]).cells@
                == self.groups@[k].cells@
        &&& forall|k: int|
            0 <= k < post.groups@.len() ==> (#[trigger] post.groups@[k]).answer_candidate@
                == if self.is_group_of(pos, k) {
                group::without_symbol(self.groups@[k].answer_candidate@, answer)
            } else {
                self.groups@[k].answer_candidate@
            }
    }

    /// Fill in an answer.  A cell that already has one is left alone;
    /// otherwise the answer is recorded and the symbol is withdrawn from
    /// the cell's row, column and block.
    pub fn set_answer(&mut self, pos: Position, answer: u8)
        requires
            old(self).wf(),
            old(self).pos_in_range(pos),
            1 <= answer <= old(self).side(),
        ensures
            final(self).wf(),
            final(self).setting == old(self).setting,
            old(self).cells@[old(self).cell_index(pos.0 as int, pos.1 as int)].answer is Some
                ==> *final(self) == *old(self),
            old(self).cells@[old(self).cell_index(pos.0 as int, pos.1 as int)].answer is None
                ==> old(self).set_answer_filled(*final(self), pos, answer),
    {
        let side = self.setting.side_size();
        proof {
            let sdi = side as int;
            assert((pos.1 as int) * sdi + (pos.0 as int) < sdi * sdi) by (nonlinear_arith)
                requires 0 <= (pos.1 as int) < sdi, 0 <= (pos.0 as int) < sdi;
            assert(sdi * sdi <= 65025) by (nonlinear_arith)
                requires 0 <= sdi <= 255;
        }
        let i: usize = pos.1 as usize * side as usize + pos.0 as usize;
        if self.cells[i].answer().is_some() {
            return ;
        }
        let ghost pre = *self;
        proof {
            lemma_count_answered_bounds(pre.cells@);
        }
        self.cells[i].set_answer(answer);
        proof {
            lemma_count_answered_update(pre.cells@, i as int, self.cells@[i as int]);
        }
        let kr: usize = pos.1 as usize;
        let kc: usize = side as usize + pos.0 as usize;
        let bh = self.setting.block_height();
        let bw = self.setting.block_width();
        proof {
            lemma_group_membership(&pre, pos, i as int);
            let hh = bh as int;
            let ww = bw as int;
            assert((pos.1 as int / hh) * hh <= pos.1 as int) by (nonlinear_arith)
                requires 1 <= hh, 0 <= pos.1 as int;
            assert((pos.0 as int / ww) * ww <= pos.0 as int) by (nonlinear_arith)
                requires 1 <= ww, 0 <= pos.0 as int;
            assert(pos.0 as int / ww <= pos.0 as int) by (nonlinear_arith)
                requires 1 <= ww, 0 <= pos.0 as int;
        }
        let kb: usize = 2 * side as usize + (pos.1 / bh) as usize * bh as usize + (pos.0
            / bw) as usize;
        proof {
            assert(kr == pre.row_group_of(pos));
            assert(kc == pre.col_group_of(pos));
            assert(kb == pre.block_group_of(pos));
            lemma_groups_sane(&pre, kr as int);
            lemma_groups_sane(&pre, kc as int);
            lemma_groups_sane(&pre, kb as int);
        }
        let ghost s0 = *self;
        self.groups[kr].remove_answer_candidate(&mut self.cells, answer);
        let ghost s1 = *self;
        self.groups[kc].remove_answer_candidate(&mut self.cells, answer);
        let ghost s2 = *self;
        self.groups[kb].remove_answer_candidate(&mut self.cells, answer);
        self.answered_count = self.answered_count + 1;
        proof {
            let ghost f = *self;
            let ii = i as int;
            let n = pre.cells@.len() as int;
            lemma_count_answered_congruence(s0.cells@, f.cells@);
            assert(f.answered_count == pre.answered_count + 1);
            // each cell's final candidate list
            assert forall|j: int| 0 <= j < n && j != ii implies (#[trigger] f.cells@[j]).answer_candidate@
                == if pre.same_unit(pos, pre.cells@[j].pos) {
                cell::remove_candidate_spec(pre.cells@[j].answer_candidate@, answer)
            } else {
                pre.cells@[j].answer_candidate@
            } by {
                lemma_group_membership(&pre, pos, j);
                cell::lemma_remove_candidate_preserves(pre.cells@[j].answer_candidate@, answer);
                cell::lemma_remove_candidate_preserves(
                    cell::remove_candidate_spec(pre.cells@[j].answer_candidate@, answer),
                    answer,
                );
            }
            assert(f.cells@.len() == n);
            assert(f.groups@.len() == pre.groups@.len());
            assert(ii == pre.cell_index(pos.0 as int, pos.1 as int));
            assert(f.cells@[ii].answer_candidate@.len() == 0);
            assert(f.cells@[ii].answer == Some(answer));
            assert forall|j: int| 0 <= j < n implies (#[trigger] f.cells@[j]).pos
                == pre.cells@[j].pos by {}
            assert forall|j: int| 0 <= j < n && j != ii implies (#[trigger] f.cells@[j]).answer
                == pre.cells@[j].answer by {}
            assert forall|k: int| 0 <= k < f.groups@.len() implies (#[trigger] f.groups@[k]).cells@
                == pre.groups@[k].cells@ by {}
            assert forall|k: int| 0 <= k < f.groups@.len() implies (#[trigger] f.groups@[k]).answer_candidate@
                == if pre.is_group_of(pos, k) {
                group::without_symbol(pre.groups@[k].answer_candidate@, answer)
            } else {
                pre.groups@[k].answer_candidate@
            } by {}
            assert(pre.set_answer_filled(f, pos, answer));
            // well-formedness of the result
            assert forall|j: int| 0 <= j < n implies (#[trigger] f.cells@[j]).wf(f.side()) by {
                assert(pre.cells@[j].wf(pre.side()));
                cell::lemma_remove_candidate_preserves(pre.cells@[j].answer_candidate@, answer);
                if j != ii && pre.same_unit(pos, pre.cells@[j].pos) {
                    let fc = f.cells@[j].answer_candidate@;
                    assert(fc == cell::remove_candidate_spec(
                        pre.cells@[j].answer_candidate@,
                        answer,
                    ));
                    assert forall|q: int| 0 <= q < fc.len() implies 1 <= #[trigger] fc[q]
                        <= f.side() by {
                        assert(fc.contains(fc[q]));
                        assert(pre.cells@[j].answer_candidate@.contains(fc[q]));
                        let p = choose|p: int|
                            0 <= p < pre.cells@[j].answer_candidate@.len()
                                && pre.cells@[j].answer_candidate@[p] == fc[q];
                        assert(1 <= pre.cells@[j].answer_candidate@[p] <= pre.side());
                    }
                }
            }
            assert forall|k: int| 0 <= k < f.groups@.len() implies (#[trigger] f.groups@[k]).wf_candidates(
                f.side(),
            ) by {
                assert(pre.groups@[k].wf_candidates(pre.side()));
                group::lemma_without_symbol_keeps(pre.groups@[k].answer_candidate@, answer);
                if pre.is_group_of(pos, k) {
                    let fcand = f.groups@[k].answer_candidate@;
                    assert(fcand == group::without_symbol(
                        pre.groups@[k].answer_candidate@,
                        answer,
                    ));
                    assert forall|q: int| 0 <= q < fcand.len() implies 1 <= #[trigger] fcand[q]
                        <= f.side() by {
                        assert(fcand.contains(fcand[q]));
                        assert(pre.groups@[k].answer_candidate@.contains(fcand[q]));
                        let p = choose|p: int|
                            0 <= p < pre.groups@[k].answer_candidate@.len()
                                && pre.groups@[k].answer_candidate@[p] == fcand[q];
                        assert(1 <= pre.groups@[k].answer_candidate@[p] <= pre.side());
                    }
                }
            }
            assert(f.wf());
        }
    }

    /// No unanswered cell is out of candidates, no group holds a repeated
    /// answer, and when the grid is full every group's remaining list has
    /// been emptied.
    pub open spec fn exists_empty_unanswered(&self) -> bool {
        exists|i: int|
            0 <= i < self.cells@.len() && (#[trigger] self.cells@[i]).answer is None
                && self.cells@[i].answer_candidate@.len() == 0
    }

    pub open spec fn exists_duplicate(&self) -> bool {
        exists|k: int|
            0 <= k < self.groups@.len() && (#[trigger] self.groups@[k]).has_duplicate_answer(
                self.cells@,
            )
    }

    pub open spec fn all_groups_clear(&self) -> bool {
        forall|k: int|
            0 <= k < self.groups@.len() ==> (#[trigger] self.groups@[k]).answer_candidate@.len()
                == 0
    }

    /// The derived game state: Failure on a contradiction, Complete on a
    /// full and consistent grid, Solving otherwise.
    pub open spec fn status_spec(&self) -> GameState {
        if self.exists_empty_unanswered() {
            GameState::Failure
        } else if self.exists_duplicate() {
            GameState::Failure
        } else if self.answered_count == self.side() * self.side() {
            if self.all_groups_clear() {
                GameState::Complete
            } else {
                GameState::Failure
            }
        } else {
            GameState::Solving
        }
    }

    pub fn check_status(&mut self) -> (r: GameState)
        requires
            old(self).wf(),
        ensures
            *final(self) == *old(self),
            r == old(self).status_spec(),
    {
        let mut i: usize = 0;
        while i < self.cells.len()
            invariant
                *self == *old(self),
                self.wf(),
                0 <= i <= self.cells@.len(),
                forall|j: int|
                    0 <= j < i ==> !((#[trigger] self.cells@[j]).answer is None
                        && self.cells@[j].answer_candidate@.len() == 0),
            decreases self.cells@.len() - i,
        {
            if self.cells[i].answer().is_none() && self.cells[i].answer_candidate_count() == 0 {
                return GameState::Failure;
            }
            i = i + 1;
        }
        let mut k: usize = 0;
        while k < self.groups.len()
            invariant
                *self == *old(self),
                self.wf(),
                0 <= k <= self.groups@.len(),
                !self.exists_empty_unanswered(),
                forall|k2: int|
                    0 <= k2 < k ==> !(#[trigger] self.groups@[k2]).has_duplicate_answer(
                        self.cells@,
                    ),
            decreases self.groups@.len() - k,
        {
            proof {
                lemma_groups_sane(self, k as int);
            }
            let dup = {
                let g = &self.groups[k];
                g.is_duplicate_answer(&self.cells)
            };
            if dup {
                proof {
                    assert(self.exists_duplicate()) by {
                        assert(self.groups@[k as int].has_duplicate_answer(self.cells@));
                    }
                }
                return GameState::Failure;
            }
            k = k + 1;
        }
        let side = self.setting.side_size();
        proof {
            let sdi = side as int;
            assert(sdi * sdi <= 65025) by (nonlinear_arith)
                requires 0 <= sdi <= 255;
        }
        if side as u32 * side as u32 == self.answered_count {
            let mut k2: usize = 0;
            while k2 < self.groups.len()
                invariant
                    *self == *old(self),
                    self.wf(),
                    0 <= k2 <= self.groups@.len(),
                    !self.exists_empty_unanswered(),
                    !self.exists_duplicate(),
                    self.answered_count == self.side() * self.side(),
                    forall|k3: int|
                        0 <= k3 < k2 ==> (#[trigger] self.groups@[k3]).answer_candidate@.len()
                            == 0,
                decreases self.groups@.len() - k2,
            {
                if !self.groups[k2].is_all_clear_answer_candidate() {
                    proof {
                        assert(!self.all_groups_clear()) by {
                            assert(self.groups@[k2 as int].answer_candidate@.len() != 0);
                        }
                    }
                    return GameState::Failure;
                }
                k2 = k2 + 1;
            }
            return GameState::Complete;
        }
        GameState::Solving
    }

    /// The arena index of the cell standing at `pos`, if the coordinates
    /// are on the grid.
    pub fn find_cell(&self, pos: Position) -> (r: Option<usize>)
        requires
            self.wf(),
        ensures
            match r {
                Some(i) => self.pos_in_range(pos) && i == self.cell_index(
                    pos.0 as int,
                    pos.1 as int,
                ) && self.cells@[i as int].pos == pos,
                None => !self.pos_in_range(pos),
            },
    {
        let side = self.setting.side_size();
        if pos.0 < side && pos.1 < side {
            proof {
                let sdi = side as int;
                assert((pos.1 as int) * sdi + (pos.0 as int) < sdi * sdi) by (nonlinear_arith)
                    requires 0 <= (pos.1 as int) < sdi, 0 <= (pos.0 as int) < sdi;
                assert(sdi * sdi <= 65025) by (nonlinear_arith)
                    requires 0 <= sdi <= 255;
            }
            let i: usize = pos.1 as usize * side as usize + pos.0 as usize;
            proof {
                vstd::arithmetic::div_mod::lemma_fundamental_div_mod_converse(
                    i as int,
                    side as int,
                    pos.1 as int,
                    pos.0 as int,
                );
            }
            Some(i)
        } else {
            None
        }
    }

    /// The indices of the three groups that contain `pos`: its row, its
    /// column, and its block, in that order.
    pub fn find_groups(&self, pos: Position) -> (r: Vec<usize>)
        requires
            self.setting.wf(),
            self.pos_in_range(pos),
        ensures
            r@.len() == 3,
            r@[0] == self.row_group_of(pos),
            r@[1] == self.col_group_of(pos),
            r@[2] == self.block_group_of(pos),
            forall|a: int| 0 <= a < 3 ==> 0 <= #[trigger] r@[a] < 3 * self.side(),
    {
        let side = self.setting.side_size();
        let bh = self.setting.block_height();
        let bw = self.setting.block_width();
        proof {
            lemma_unit_groups_in_range(self, pos);
        }
        let mut r: Vec<usize> = Vec::new();
        r.push(pos.1 as usize);
        r.push(side as usize + pos.0 as usize);
        r.push(2 * side as usize + (pos.1 / bh) as usize * bh as usize + (pos.0 / bw) as usize);
        r
    }

    /// A deep copy.  The answers are replayed one by one onto a fresh
    /// grid, so candidates and remaining lists are recomputed from the
    /// answers rather than copied verbatim.
    pub fn clone(&self) -> (r: NormalGame)
        requires
            self.wf(),
        ensures
            r.wf(),
            r.setting.eq_view(&self.setting),
            r.cells@.len() == self.cells@.len(),
            r.groups@.len() == self.groups@.len(),
            forall|m: int|
                0 <= m < r.cells@.len() ==> (#[trigger] r.cells@[m]).pos == self.cells@[m].pos,
            forall|m: int|
                0 <= m < r.cells@.len() ==> (#[trigger] r.cells@[m]).answer
                    == self.cells@[m].answer,
            r.answered_count == self.answered_count,
            forall|k: int, x: u8|
                0 <= k < r.groups@.len() && #[trigger] r.groups@[k].answer_candidate@.contains(x)
                    ==> !r.groups@[k].some_member_answers(r.cells@, x),
            r.sound(),
    {
        let mut ng = NormalGame::new(self.setting.clone());
        let mut j: usize = 0;
        while j < self.cells.len()
            invariant
                self.wf(),
                0 <= j <= self.cells@.len(),
                ng.wf(),
                ng.setting.eq_view(&self.setting),
                ng.cells@.len() == self.cells@.len(),
                ng.groups@.len() == self.groups@.len(),
                forall|m: int|
                    0 <= m < ng.cells@.len() ==> (#[trigger] ng.cells@[m]).pos
                        == self.cells@[m].pos,
                forall|m: int|
                    0 <= m < ng.cells@.len() ==> (#[trigger] ng.cells@[m]).answer == (if m
                        < j {
                        self.cells@[m].answer
                    } else {
                        None
                    }),
                ng.sound(),
            decreases self.cells@.len() - j,
        {
            match self.cells[j].answer() {
                Some(v) => {
                    let p = self.cells[j].pos();
                    let ghost png = ng;
                    proof {
                        let s = self.side();
                        let ji = j as int;
                        vstd::arithmetic::div_mod::lemma_mod_bound(ji, s);
                        assert(0 <= ji / s < s) by (nonlinear_arith)
                            requires 0 <= ji < s * s, 1 <= s;
                        vstd::arithmetic::div_mod::lemma_fundamental_div_mod(ji, s);
                        assert(ng.pos_in_range(p));
                        assert(ng.cell_index(p.0 as int, p.1 as int) == ji) by (nonlinear_arith)
                            requires
                                p.0 == ji % s,
                                p.1 == ji / s,
                                ji == s * (ji / s) + ji % s,
                                ng.cell_index(p.0 as int, p.1 as int) == p.1 * s + p.0,
                        ;
                    }
                    ng.set_answer(p, v);
                    proof {
                        assert(1 <= v <= png.side());
                        lemma_set_answer_sound(&png, &ng, p, v);
                    }
                },
                None => {},
            }
            j = j + 1;
        }
        proof {
            lemma_count_answered_congruence(ng.cells@, self.cells@);
        }
        ng
    }
}

/// Two games are equal when they have the same block size and answer
/// the same symbols at the same positions; candidate lists do not count.
impl PartialEq for NormalGame {
    fn eq(&self, other: &Self) -> (r: bool) {
        if !(self.setting.block_size == other.setting.block_size) {
            return false;
        }
        if self.cells.len() != other.cells.len() {
            return false;
        }
        let mut i: usize = 0;
        while i < self.cells.len()
            invariant
                0 <= i <= self.cells@.len(),
                self.cells@.len() == other.cells@.len(),
                forall|j: int|
                    0 <= j < i ==> (#[trigger] self.cells@[j]).answer == other.cells@[j].answer,
            decreases self.cells@.len() - i,
        {
            let a = self.cells[i].answer();
            let b = other.cells[i].answer();
            let same = match (a, b) {
                (Some(x), Some(y)) => x == y,
                (None, None) => true,
                _ => false,
            };
            if !same {
                return false;
            }
            i = i + 1;
        }
        true
    }
}

impl vstd::std_specs::cmp::PartialEqSpecImpl for NormalGame {
    open spec fn obeys_eq_spec() -> bool {
        true
    }

    open spec fn eq_spec(&self, other: &Self) -> bool {
        &&& self.setting.block_size == other.setting.block_size
        &&& self.cells@.len() == other.cells@.len()
        &&& forall|j: int|
            0 <= j < self.cells@.len() ==> (#[trigger] self.cells@[j]).answer
                == other.cells@[j].answer
    }
}

proof fn lemma_count_answered_empty(s: Seq<Cell>)
    requires
        forall|i: int| 0 <= i < s.len() ==> (#[trigger] s[i].answer) is None,
    ensures
        count_answered(s) == 0,
    decreases s.len(),
{
    if s.len() > 0 {
        lemma_count_answered_empty(s.drop_last());
    }
}

/// Two arenas whose cells agree answer-for-answer have the same count.
pub proof fn lemma_count_answered_congruence(s1: Seq<Cell>, s2: Seq<Cell>)
    requires
        s1.len() == s2.len(),
        forall|i: int| 0 <= i < s1.len() ==> (#[trigger] s1[i]).answer == s2[i].answer,
    ensures
        count_answered(s1) == count_answered(s2),
    decreases s1.len(),
{
    if s1.len() > 0 {
        lemma_count_answered_congruence(s1.drop_last(), s2.drop_last());
        assert(s1.last().answer == s2.last().answer);
    }
}

/// Every group of a well-formed game has in-bounds, pairwise distinct
/// member indices.
pub proof fn lemma_groups_sane(game: &NormalGame, k: int)
    requires
        game.wf(),
        0 <= k < game.groups@.len(),
    ensures
        game.groups@[k].members_bound(game.cells@.len() as int),
        game.groups@[k].members_distinct(),
{
    let h = game.setting.block_size.height as int;
    let w = game.setting.block_size.width as int;
    let g = game.groups@[k];
    assert(3 * h * w == 3 * (h * w)) by (nonlinear_arith);
    assert forall|j: int| 0 <= j < g.cells@.len() implies #[trigger] g.cells@[j]
        < game.cells@.len() by {
        group::lemma_group_member_in_range(h, w, k, j);
    }
    assert forall|j1: int, j2: int| 0 <= j1 < j2 < g.cells@.len() implies g.cells@[j1]
        != g.cells@[j2] by {
        group::lemma_group_members_distinct(h, w, k, j1, j2);
    }
}

/// Every cell of a well-formed game stands at coordinates on the grid.
pub proof fn lemma_wf_positions(game: &NormalGame)
    requires
        game.wf(),
    ensures
        forall|m: int|
            0 <= m < game.cells@.len() ==> game.pos_in_range((#[trigger] game.cells@[m]).pos),
{
    let s = game.side();
    assert forall|m: int| 0 <= m < game.cells@.len() implies game.pos_in_range(
        (#[trigger] game.cells@[m]).pos,
    ) by {
        vstd::arithmetic::div_mod::lemma_mod_bound(m, s);
        assert(0 <= m / s < s) by (nonlinear_arith)
            requires 0 <= m < s * s, 1 <= s;
    }
}

/// A cell is a member of exactly the groups of its own position: its row,
/// its column, and its block.
pub proof fn lemma_member_iff(game: &NormalGame, k: int, i: int)
    requires
        game.wf(),
        0 <= k < game.groups@.len(),
        0 <= i < game.cells@.len(),
    ensures
        game.groups@[k].is_member(i) <==> game.is_group_of(game.cells@[i].pos, k),
{
    let pos = game.cells@[i].pos;
    let s = game.side();
    let h = game.setting.block_size.height as int;
    let w = game.setting.block_size.width as int;
    assert(game.pos_in_range(pos)) by {
        vstd::arithmetic::div_mod::lemma_mod_bound(i, s);
        assert(0 <= i / s < s) by (nonlinear_arith)
            requires 0 <= i < s * s, 1 <= s;
    }
    lemma_group_membership(game, pos, i);
    if game.groups@[k].is_member(i) {
        let g = game.groups@[k];
        let j = choose|j: int| 0 <= j < g.cells@.len() && g.cells@[j] == i;
        assert(g.cells@[j] == group::group_member_spec(h, w, k, j));
        vstd::arithmetic::div_mod::lemma_fundamental_div_mod(i, s);
        if k < s {
            vstd::arithmetic::div_mod::lemma_fundamental_div_mod_converse(i, s, k, j);
            assert(k == game.row_group_of(pos));
        } else if k < 2 * s {
            vstd::arithmetic::div_mod::lemma_fundamental_div_mod_converse(i, s, j, k - s);
            assert(k == game.col_group_of(pos));
        } else {
            let b = k - 2 * s;
            let t = b / h;
            let u = b % h;
            assert(0 <= j / w <= h - 1) by (nonlinear_arith)
                requires 0 <= j < h * w, 1 <= h, 1 <= w;
            vstd::arithmetic::div_mod::lemma_mod_bound(j, w);
            vstd::arithmetic::div_mod::lemma_mod_bound(b, h);
            let yy = t * h + j / w;
            let xx = u * w + j % w;
            assert(i == yy * s + xx);
            assert(0 <= b < s);
            assert(0 <= t <= w - 1) by (nonlinear_arith)
                requires 0 <= b < h * w, 1 <= h, 1 <= w, t == b / h;
            assert(0 <= yy < s) by (nonlinear_arith)
                requires 0 <= t <= w - 1, 0 <= j / w <= h - 1, yy == t * h + j / w, s == h * w;
            assert(0 <= xx < s) by (nonlinear_arith)
                requires 0 <= u <= h - 1, 0 <= j % w < w, xx == u * w + j % w, s == h * w;
            vstd::arithmetic::div_mod::lemma_fundamental_div_mod_converse(i, s, yy, xx);
            assert(pos.1 == yy && pos.0 == xx);
            vstd::arithmetic::div_mod::lemma_fundamental_div_mod_converse(pos.1 as int, h, t, j / w);
            vstd::arithmetic::div_mod::lemma_fundamental_div_mod_converse(pos.0 as int, w, u, j % w);
            vstd::arithmetic::div_mod::lemma_fundamental_div_mod(b, h);
            assert(h * t == t * h) by (nonlinear_arith);
            assert(b == t * h + u);
            assert(k == game.block_group_of(pos));
        }
    }
}

impl NormalGame {
    /// Nothing on the grid rules out symbol `x` at open cell `i`: no cell
    /// of `i`'s row, column or block answers `x`.
    pub open spec fn symbol_allowed(&self, i: int, x: u8) -> bool {
        forall|j: int|
            0 <= j < self.cells@.len() && j != i && self.same_unit(
                self.cells@[i].pos,
                self.cells@[j].pos,
            ) ==> (#[trigger] self.cells@[j]).answer != Some(x)
    }

    /// Candidate lists never rule out a symbol the answers do not rule
    /// out.
    pub open spec fn candidates_complete(&self) -> bool {
        forall|i: int, x: u8|
            0 <= i < self.cells@.len() && (#[trigger] self.cells@[i]).answer is None && 1 <= x
                <= self.side() && self.symbol_allowed(i, x)
                ==> #[trigger] self.cells@[i].answer_candidate@.contains(x)
    }

    /// Remaining lists never rule out a symbol no member confirms.
    pub open spec fn remaining_complete(&self) -> bool {
        forall|k: int, x: u8|
            0 <= k < self.groups@.len() && 1 <= x <= self.side() && !(
            #[trigger] self.groups@[k]).some_member_answers(self.cells@, x)
                ==> #[trigger] self.groups@[k].answer_candidate@.contains(x)
    }

    /// Remaining lists hold only symbols no member confirms.
    pub open spec fn unconfirmed_only(&self) -> bool {
        forall|k: int, x: u8|
            0 <= k < self.groups@.len() && #[trigger] self.groups@[k].answer_candidate@.contains(x)
                ==> !self.groups@[k].some_member_answers(self.cells@, x)
    }

    /// The candidate and remaining lists are faithful to the answers:
    /// they exclude nothing that is still possible, and remaining lists
    /// hold only unconfirmed symbols.  This is what makes the two
    /// propagation rules and the guessing step unable to prune a valid
    /// completion.
    pub open spec fn sound(&self) -> bool {
        self.candidates_complete() && self.remaining_complete() && self.unconfirmed_only()
    }
}

/// Filling an open cell keeps the lists sound.
pub proof fn lemma_set_answer_sound(pre: &NormalGame, post: &NormalGame, pos: Position, v: u8)
    requires
        pre.wf(),
        pre.sound(),
        pre.pos_in_range(pos),
        1 <= v <= pre.side(),
        pre.cells@[pre.cell_index(pos.0 as int, pos.1 as int)].answer is None,
        pre.set_answer_filled(*post, pos, v),
        post.setting == pre.setting,
    ensures
        post.sound(),
{
    let s = pre.side();
    let i = pre.cell_index(pos.0 as int, pos.1 as int);
    assert(0 <= i < s * s) by (nonlinear_arith)
        requires 0 <= (pos.0 as int) < s, 0 <= (pos.1 as int) < s, i == pos.1 * s + pos.0;
    vstd::arithmetic::div_mod::lemma_fundamental_div_mod_converse(i, s, pos.1 as int, pos.0 as int);
    assert(pre.cells@[i].pos == pos);
    assert(post.unconfirmed_only()) by {
        assert forall|k: int, x: u8|
            0 <= k < post.groups@.len() && #[trigger] post.groups@[k].answer_candidate@.contains(x)
            implies !post.groups@[k].some_member_answers(post.cells@, x) by {
            lemma_groups_sane(pre, k);
            if pre.is_group_of(pos, k) {
                group::lemma_without_symbol_keeps(pre.groups@[k].answer_candidate@, v);
                assert(x != v && pre.groups@[k].answer_candidate@.contains(x));
            }
            if post.groups@[k].some_member_answers(post.cells@, x) {
                let m = choose|m: int|
                    0 <= m < post.groups@[k].cells@.len()
                        && post.cells@[#[trigger] post.groups@[k].cells@[m] as int].answer == Some(
                        x,
                    );
                let mi = post.groups@[k].cells@[m] as int;
                if mi == i {
                    assert(x == v);
                    assert(pre.groups@[k].is_member(i)) by {
                        assert(pre.groups@[k].cells@[m] == i as usize);
                    }
                    lemma_member_iff(pre, k, i);
                    assert(pre.is_group_of(pos, k));
                } else {
                    assert(pre.cells@[mi].answer == Some(x));
                    assert(pre.groups@[k].some_member_answers(pre.cells@, x));
                    assert(pre.groups@[k].answer_candidate@.contains(x));
                }
            }
        }
    }
    assert(post.remaining_complete()) by {
        assert forall|k: int, x: u8|
            0 <= k < post.groups@.len() && 1 <= x <= post.side() && !(
            #[trigger] post.groups@[k]).some_member_answers(post.cells@, x)
            implies #[trigger] post.groups@[k].answer_candidate@.contains(x) by {
            lemma_groups_sane(pre, k);
            lemma_member_iff(pre, k, i);
            assert(!pre.groups@[k].some_member_answers(pre.cells@, x)) by {
                if pre.groups@[k].some_member_answers(pre.cells@, x) {
                    let m = choose|m: int|
                        0 <= m < pre.groups@[k].cells@.len()
                            && pre.cells@[#[trigger] pre.groups@[k].cells@[m] as int].answer
                            == Some(x);
                    let mi = pre.groups@[k].cells@[m] as int;
                    assert(mi != i);
                    assert(post.cells@[mi].answer == Some(x));
                    assert(post.groups@[k].some_member_answers(post.cells@, x));
                }
            }
            assert(pre.groups@[k].answer_candidate@.contains(x));
            if pre.is_group_of(pos, k) {
                assert(x != v) by {
                    if x == v {
                        assert(pre.groups@[k].is_member(i));
                        let m = choose|m: int|
                            0 <= m < pre.groups@[k].cells@.len()
                                && #[trigger] pre.groups@[k].cells@[m] == i as usize;
                        assert(post.cells@[post.groups@[k].cells@[m] as int].answer == Some(v));
                        assert(post.groups@[k].some_member_answers(post.cells@, v));
                    }
                }
                group::lemma_without_symbol_keeps(pre.groups@[k].answer_candidate@, v);
            }
        }
    }
    assert(post.candidates_complete()) by {
        assert forall|i2: int, x: u8|
            0 <= i2 < post.cells@.len() && (#[trigger] post.cells@[i2]).answer is None && 1 <= x
                <= post.side() && post.symbol_allowed(i2, x)
            implies #[trigger] post.cells@[i2].answer_candidate@.contains(x) by {
            assert(i2 != i);
            assert(pre.cells@[i2].answer is None);
            assert(pre.symbol_allowed(i2, x)) by {
                assert forall|j: int|
                    0 <= j < pre.cells@.len() && j != i2 && pre.same_unit(
                        pre.cells@[i2].pos,
                        pre.cells@[j].pos,
                    ) implies (#[trigger] pre.cells@[j]).answer != Some(x) by {
                    if pre.cells@[j].answer == Some(x) {
                        assert(post.cells@[j].answer == Some(x));
                        assert(post.same_unit(post.cells@[i2].pos, post.cells@[j].pos));
                    }
                }
            }
            assert(pre.cells@[i2].answer_candidate@.contains(x));
            assert(pre.cells@[i2].wf(s));
            cell::lemma_remove_candidate_preserves(pre.cells@[i2].answer_candidate@, v);
            if pre.same_unit(pos, pre.cells@[i2].pos) {
                assert(x != v) by {
                    if x == v {
                        assert(post.same_unit(post.cells@[i2].pos, post.cells@[i].pos));
                        assert(post.cells@[i].answer == Some(v));
                    }
                }
            }
        }
    }
}

/// The grid's shape: a well-formed game over blocks of `h` by `w` cells
/// holds `(h*w) * (h*w)` cells and `3 * h*w` groups of `h*w` members
/// each, and every cell is a member of exactly one row group, exactly
/// one column group, and exactly one block group.
pub proof fn lemma_one_group_of_each_kind(game: &NormalGame, i: int)
    requires
        game.wf(),
        0 <= i < game.cells@.len(),
    ensures
        game.cells@.len() == game.side() * game.side(),
        game.groups@.len() == 3 * game.side(),
        forall|k: int|
            0 <= k < game.groups@.len() ==> (#[trigger] game.groups@[k]).cells@.len()
                == game.side(),
        forall|k: int|
            0 <= k < game.side() ==> ((#[trigger] game.groups@[k]).is_member(i) <==> k
                == game.row_group_of(game.cells@[i].pos)),
        forall|k: int|
            game.side() <= k < 2 * game.side() ==> ((#[trigger] game.groups@[k]).is_member(i) <==> k
                == game.col_group_of(game.cells@[i].pos)),
        forall|k: int|
            2 * game.side() <= k < 3 * game.side() ==> ((#[trigger] game.groups@[k]).is_member(i)
                <==> k == game.block_group_of(game.cells@[i].pos)),
        0 <= game.row_group_of(game.cells@[i].pos) < game.side(),
        game.side() <= game.col_group_of(game.cells@[i].pos) < 2 * game.side(),
        2 * game.side() <= game.block_group_of(game.cells@[i].pos) < 3 * game.side(),
{
    let pos = game.cells@[i].pos;
    let s = game.side();
    assert(game.pos_in_range(pos)) by {
        lemma_wf_positions(game);
    }
    lemma_group_membership(game, pos, i);
    assert forall|k: int| 0 <= k < game.groups@.len() implies (
    #[trigger] game.groups@[k]).is_member(i) <==> game.is_group_of(pos, k) by {
        lemma_member_iff(game, k, i);
    }
}

/// Answers only grow from `pre` to `post`: same shape, every confirmed
/// answer kept.
pub open spec fn answers_extend(pre: NormalGame, post: NormalGame) -> bool {
    &&& post.setting.eq_view(&pre.setting)
    &&& post.cells@.len() == pre.cells@.len()
    &&& post.groups@.len() == pre.groups@.len()
    &&& forall|j: int|
        0 <= j < post.cells@.len() ==> (#[trigger] post.cells@[j]).pos == pre.cells@[j].pos
    &&& forall|j: int|
        0 <= j < post.cells@.len() && (#[trigger] pre.cells@[j].answer) is Some
            ==> post.cells@[j].answer == pre.cells@[j].answer
    &&& post.answered_count >= pre.answered_count
}

pub proof fn lemma_answers_extend_trans(a: NormalGame, b: NormalGame, c: NormalGame)
    requires
        answers_extend(a, b),
        answers_extend(b, c),
    ensures
        answers_extend(a, c),
{
}

/// Two well-formed games over one configuration carve the grid into the
/// same groups.
pub proof fn lemma_wf_groups_equal(a: &NormalGame, b: &NormalGame)
    requires
        a.wf(),
        b.wf(),
        a.setting.eq_view(&b.setting),
    ensures
        forall|k: int|
            0 <= k < a.groups@.len() ==> (#[trigger] a.groups@[k]).cells@ == b.groups@[k].cells@,
{
    assert forall|k: int| 0 <= k < a.groups@.len() implies (#[trigger] a.groups@[k]).cells@
        == b.groups@[k].cells@ by {
        assert(a.groups@[k].cells@ =~= b.groups@[k].cells@);
    }
}

/// A repeated answer survives anything that only adds answers.
pub proof fn lemma_duplicate_extends(pre: &NormalGame, post: &NormalGame)
    requires
        answers_extend(*pre, *post),
        forall|k: int|
            0 <= k < pre.groups@.len() ==> (#[trigger] pre.groups@[k]).cells@
                == post.groups@[k].cells@,
        forall|k: int|
            0 <= k < pre.groups@.len() ==> (#[trigger] pre.groups@[k]).members_bound(
                pre.cells@.len() as int,
            ),
        pre.exists_duplicate(),
    ensures
        post.exists_duplicate(),
{
    let k = choose|k: int|
        0 <= k < pre.groups@.len() && (#[trigger] pre.groups@[k]).has_duplicate_answer(pre.cells@);
    let g = pre.groups@[k];
    let (j1, j2) = choose|j1: int, j2: int|
        0 <= j1 < j2 < g.cells@.len() && (#[trigger] pre.cells@[g.cells@[j1] as int].answer) is Some
            && pre.cells@[g.cells@[j1] as int].answer == (
        #[trigger] pre.cells@[g.cells@[j2] as int].answer);
    assert(post.cells@[g.cells@[j1] as int].answer == pre.cells@[g.cells@[j1] as int].answer);
    assert(post.cells@[g.cells@[j2] as int].answer == pre.cells@[g.cells@[j2] as int].answer);
    assert(post.groups@[k].has_duplicate_answer(post.cells@));
}

/// The three group indices of a position lie inside `0 .. 3 * side`, one
/// in each third.
pub proof fn lemma_unit_groups_in_range(game: &NormalGame, pos: Position)
    requires
        game.setting.wf(),
        game.pos_in_range(pos),
    ensures
        0 <= game.row_group_of(pos) < game.side(),
        game.side() <= game.col_group_of(pos) < 2 * game.side(),
        2 * game.side() <= game.block_group_of(pos) < 3 * game.side(),
        (pos.1 as int / game.setting.block_size.height as int)
            * game.setting.block_size.height as int <= pos.1 as int,
        (pos.0 as int / game.setting.block_size.width as int)
            * game.setting.block_size.width as int <= pos.0 as int,
        0 <= pos.0 as int / game.setting.block_size.width as int,
{
    let h = game.setting.block_size.height as int;
    let w = game.setting.block_size.width as int;
    let s = game.side();
    let py = pos.1 as int;
    let px = pos.0 as int;
    assert(0 <= py / h <= w - 1) by (nonlinear_arith)
        requires 0 <= py < h * w, 1 <= h, 1 <= w;
    assert(0 <= px / w <= h - 1) by (nonlinear_arith)
        requires 0 <= px < h * w, 1 <= h, 1 <= w;
    assert((py / h) * h + px / w < s) by (nonlinear_arith)
        requires 0 <= py / h <= w - 1, 0 <= px / w <= h - 1, s == h * w;
    assert((py / h) * h >= 0) by (nonlinear_arith)
        requires 0 <= py / h, 1 <= h;
    assert((py / h) * h <= py) by (nonlinear_arith)
        requires 1 <= h, 0 <= py;
    assert((px / w) * w <= px) by (nonlinear_arith)
        requires 1 <= w, 0 <= px;
}

/// The three group indices of a position are in range, and membership in
/// each of them is exactly the corresponding relation between positions:
/// same row, same column, or same block.
pub proof fn lemma_group_membership(game: &NormalGame, pos: Position, i: int)
    requires
        game.wf(),
        game.pos_in_range(pos),
        0 <= i < game.cells@.len(),
    ensures
        0 <= game.row_group_of(pos) < game.side(),
        game.side() <= game.col_group_of(pos) < 2 * game.side(),
        2 * game.side() <= game.block_group_of(pos) < 3 * game.side(),
        game.groups@[game.row_group_of(pos)].is_member(i) <==> game.cells@[i].pos.1 == pos.1,
        game.groups@[game.col_group_of(pos)].is_member(i) <==> game.cells@[i].pos.0 == pos.0,
        game.groups@[game.block_group_of(pos)].is_member(i) <==> (game.cells@[i].pos.1 as int
            / game.setting.block_size.height as int == pos.1 as int
            / game.setting.block_size.height as int && game.cells@[i].pos.0 as int
            / game.setting.block_size.width as int == pos.0 as int
            / game.setting.block_size.width as int),
{
    let h = game.setting.block_size.height as int;
    let w = game.setting.block_size.width as int;
    let s = game.side();
    let x = game.cells@[i].pos.0 as int;
    let y = game.cells@[i].pos.1 as int;
    assert(x == i % s && y == i / s);
    vstd::arithmetic::div_mod::lemma_fundamental_div_mod(i, s);
    assert(i == s * (i / s) + i % s);
    vstd::arithmetic::div_mod::lemma_mod_bound(i, s);
    assert(0 <= y < s) by (nonlinear_arith)
        requires y == i / s, 0 <= i < s * s, 1 <= s;
    // the block tile coordinates of `pos` are in range
    let py = pos.1 as int;
    let px = pos.0 as int;
    assert(0 <= py / h <= w - 1) by (nonlinear_arith)
        requires 0 <= py < h * w, 1 <= h, 1 <= w;
    assert(0 <= px / w <= h - 1) by (nonlinear_arith)
        requires 0 <= px < h * w, 1 <= h, 1 <= w;
    let t = py / h;
    let u = px / w;
    let b = t * h + u;
    assert(0 <= b < s) by (nonlinear_arith)
        requires 0 <= t <= w - 1, 0 <= u <= h - 1, b == t * h + u, s == h * w;
    assert(game.block_group_of(pos) == 2 * s + b);
    vstd::arithmetic::div_mod::lemma_fundamental_div_mod_converse(b, h, t, u);

    // row group
    let kr = game.row_group_of(pos);
    let gr = game.groups@[kr];
    assert(gr.wf_members(h, w, kr));
    if gr.is_member(i) {
        let j = choose|j: int| 0 <= j < gr.cells@.len() && gr.cells@[j] == i;
        assert(gr.cells@[j] == group::group_member_spec(h, w, kr, j));
        assert(i == kr * s + j);
        vstd::arithmetic::div_mod::lemma_fundamental_div_mod_converse(i, s, kr, j);
        assert(y == pos.1);
    }
    if y == pos.1 {
        assert(gr.cells@[x] == group::group_member_spec(h, w, kr, x));
        assert(group::group_member_spec(h, w, kr, x) == kr * s + x);
        assert(kr * s + x == s * (i / s) + i % s) by (nonlinear_arith)
            requires kr == i / s, x == i % s;
        assert(gr.cells@[x] == i);
        assert(gr.is_member(i));
    }

    // column group
    let kc = game.col_group_of(pos);
    let gc = game.groups@[kc];
    assert(gc.wf_members(h, w, kc));
    if gc.is_member(i) {
        let j = choose|j: int| 0 <= j < gc.cells@.len() && gc.cells@[j] == i;
        assert(gc.cells@[j] == group::group_member_spec(h, w, kc, j));
        assert(i == j * s + px);
        vstd::arithmetic::div_mod::lemma_fundamental_div_mod_converse(i, s, j, px);
        assert(x == pos.0);
    }
    if x == pos.0 {
        assert(gc.cells@[y] == group::group_member_spec(h, w, kc, y));
        assert(group::group_member_spec(h, w, kc, y) == y * s + px);
        assert(y * s + x == s * (i / s) + i % s) by (nonlinear_arith)
            requires y == i / s, x == i % s;
        assert(gc.is_member(i));
    }

    // block group
    let kb = game.block_group_of(pos);
    let gb = game.groups@[kb];
    assert(gb.wf_members(h, w, kb));
    if gb.is_member(i) {
        let j = choose|j: int| 0 <= j < gb.cells@.len() && gb.cells@[j] == i;
        assert(gb.cells@[j] == group::group_member_spec(h, w, kb, j));
        assert(0 <= j / w <= h - 1) by (nonlinear_arith)
            requires 0 <= j < h * w, 1 <= h, 1 <= w;
        vstd::arithmetic::div_mod::lemma_mod_bound(j, w);
        let yy = t * h + j / w;
        let xx = u * w + j % w;
        assert(i == yy * s + xx);
        assert(0 <= yy < s) by (nonlinear_arith)
            requires 0 <= t <= w - 1, 0 <= j / w <= h - 1, yy == t * h + j / w, s == h * w;
        assert(0 <= xx < s) by (nonlinear_arith)
            requires 0 <= u <= h - 1, 0 <= j % w < w, xx == u * w + j % w, s == h * w;
        vstd::arithmetic::div_mod::lemma_fundamental_div_mod_converse(i, s, yy, xx);
        assert(y == yy && x == xx);
        vstd::arithmetic::div_mod::lemma_fundamental_div_mod_converse(y, h, t, j / w);
        vstd::arithmetic::div_mod::lemma_fundamental_div_mod_converse(x, w, u, j % w);
        assert(y / h == t && x / w == u);
    }
    if y / h == t && x / w == u {
        vstd::arithmetic::div_mod::lemma_fundamental_div_mod(y, h);
        vstd::arithmetic::div_mod::lemma_fundamental_div_mod(x, w);
        vstd::arithmetic::div_mod::lemma_mod_bound(y, h);
        vstd::arithmetic::div_mod::lemma_mod_bound(x, w);
        let j = (y % h) * w + x % w;
        assert(0 <= j < s) by (nonlinear_arith)
            requires 0 <= y % h <= h - 1, 0 <= x % w < w, j == (y % h) * w + x % w, s == h * w;
        vstd::arithmetic::div_mod::lemma_fundamental_div_mod_converse(j, w, y % h, x % w);
        assert(gb.cells@[j] == group::group_member_spec(h, w, kb, j));
        let yy = t * h + j / w;
        let xx = u * w + j % w;
        assert(yy == y) by (nonlinear_arith)
            requires yy == t * h + j / w, j / w == y % h, t == y / h, y == h * (y / h) + y % h;
        assert(xx == x) by (nonlinear_arith)
            requires xx == u * w + j % w, j % w == x % w, u == x / w, x == w * (x / w) + x % w;
        assert(yy * s + xx == s * (i / s) + i % s) by (nonlinear_arith)
            requires yy == i / s, xx == i % s;
        assert(gb.cells@[j] == i);
        assert(gb.is_member(i));
    }
}

} // verus!
