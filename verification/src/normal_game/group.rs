//! A constraint group: a row, a column or a block.  A group stores the
//! arena indices of its member cells together with the list of symbols not
//! yet confirmed by any member.
use vstd::prelude::*;

verus! {

use crate::normal_game::cell::Cell;
use crate::normal_game::cell::Position;
use crate::normal_game::cell::remove_candidate_spec;
use crate::normal_game::setting::distinct_seq;
use crate::normal_game::setting::GameSetting;

/// Arena index of member `j` of group `k`, for blocks of `h` by `w` cells.
/// Groups `0..s` are the rows, `s..2*s` the columns, and `2*s..3*s` the
/// blocks in row-major tile order, each scanned row-major.
pub open spec fn group_member_spec(h: int, w: int, k: int, j: int) -> int {
    let s = h * w;
    if k < s {
        k * s + j
    } else if k < 2 * s {
        j * s + (k - s)
    } else {
        let b = k - 2 * s;
        (((b / h) * h) + j / w) * s + (b % h) * w + j % w
    }
}

/// `s` without the occurrences of `answer`, order kept.
pub open spec fn without_symbol(s: Seq<u8>, answer: u8) -> Seq<u8> {
    s.filter(|n: u8| n != answer)
}

pub struct Group {
    pub cells: Vec<usize>,
    pub answer_candidate: Vec<u8>,
}

impl Group {
    /// The member list is exactly the one group `k` owns in a grid of
    /// `h` by `w` blocks.
    pub open spec fn wf_members(&self, h: int, w: int, k: int) -> bool {
        &&& self.cells@.len() == h * w
        &&& forall|j: int|
            0 <= j < self.cells@.len() ==> #[trigger] self.cells@[j] == group_member_spec(
                h,
                w,
                k,
                j,
            )
    }

    pub open spec fn wf_candidates(&self, side: int) -> bool {
        &&& distinct_seq(self.answer_candidate@)
        &&& forall|i: int|
            0 <= i < self.answer_candidate@.len() ==> 1 <= #[trigger] self.answer_candidate@[i]
                <= side
    }

    /// Every member index points into an arena of `n` cells.
    pub open spec fn members_bound(&self, n: int) -> bool {
        forall|j: int| 0 <= j < self.cells@.len() ==> #[trigger] self.cells@[j] < n
    }

    pub open spec fn members_distinct(&self) -> bool {
        forall|j1: int, j2: int|
            0 <= j1 < j2 < self.cells@.len() ==> self.cells@[j1] != self.cells@[j2]
    }

    /// Whether arena index `i` is one of the members.
    pub open spec fn is_member(&self, i: int) -> bool {
        exists|j: int| 0 <= j < self.cells@.len() && #[trigger] self.cells@[j] == i
    }

    /// Some member cell stands at `e.0` and still holds `e.1` as a
    /// candidate.
    pub open spec fn entry_witnessed(&self, cells: Seq<Cell>, e: (Position, u8)) -> bool {
        exists|m: int|
            0 <= m < self.cells@.len() && cells[#[trigger] self.cells@[m] as int].pos == e.0
                && cells[self.cells@[m] as int].answer_candidate@.contains(e.1)
    }

    /// How many of the first `n` members hold `v` as a candidate.
    pub open spec fn holder_count_to(&self, cells: Seq<Cell>, v: u8, n: int) -> int
        decreases n,
    {
        if n <= 0 {
            0
        } else {
            self.holder_count_to(cells, v, n - 1) + if cells[self.cells@[n - 1] as int].answer_candidate@.contains(
                v,
            ) {
                1int
            } else {
                0
            }
        }
    }

    pub open spec fn holder_count(&self, cells: Seq<Cell>, v: u8) -> int {
        self.holder_count_to(cells, v, self.cells@.len() as int)
    }

    /// The first member position (in member order) from `j` on that holds
    /// `v` as a candidate; `len` when none does.
    pub open spec fn first_holder_from(&self, cells: Seq<Cell>, v: u8, j: int) -> int
        decreases self.cells@.len() - j,
    {
        if j < 0 || j >= self.cells@.len() {
            self.cells@.len() as int
        } else if cells[self.cells@[j] as int].answer_candidate@.contains(v) {
            j
        } else {
            self.first_holder_from(cells, v, j + 1)
        }
    }

    /// The lonely pairs gathered from the first `n` symbols of the
    /// remaining list: each symbol held as a candidate by exactly one
    /// member, paired with that member's position.
    pub open spec fn lonelies_to(&self, cells: Seq<Cell>, n: int) -> Seq<(Position, u8)>
        decreases n,
    {
        if n <= 0 {
            Seq::empty()
        } else {
            let rest = self.lonelies_to(cells, n - 1);
            let v = self.answer_candidate@[n - 1];
            if self.holder_count(cells, v) == 1 {
                rest.push(
                    (cells[self.cells@[self.first_holder_from(cells, v, 0)] as int].pos, v),
                )
            } else {
                rest
            }
        }
    }

    pub open spec fn lonelies(&self, cells: Seq<Cell>) -> Seq<(Position, u8)> {
        self.lonelies_to(cells, self.answer_candidate@.len() as int)
    }

    /// No symbol of the remaining list is held by exactly one member.
    pub open spec fn no_hidden_single(&self, cells: Seq<Cell>) -> bool {
        forall|i: int|
            0 <= i < self.answer_candidate@.len() ==> self.holder_count(
                cells,
                #[trigger] self.answer_candidate@[i],
            ) != 1
    }

    /// How many of the first `n` members carry an answer.
    pub open spec fn answer_count_to(&self, cells: Seq<Cell>, n: int) -> int
        decreases n,
    {
        if n <= 0 {
            0
        } else {
            self.answer_count_to(cells, n - 1) + if cells[self.cells@[n - 1] as int].answer is Some {
                1int
            } else {
                0
            }
        }
    }

    pub open spec fn answer_count_spec(&self, cells: Seq<Cell>) -> int {
        self.answer_count_to(cells, self.cells@.len() as int)
    }

    /// Some member's answer is `v`.
    pub open spec fn some_member_answers(&self, cells: Seq<Cell>, v: u8) -> bool {
        exists|j: int|
            0 <= j < self.cells@.len() && cells[#[trigger] self.cells@[j] as int].answer == Some(v)
    }

    /// Two distinct members confirm the same symbol.
    pub open spec fn has_duplicate_answer(&self, cells: Seq<Cell>) -> bool {
        exists|j1: int, j2: int|
            0 <= j1 < j2 < self.cells@.len() && (#[trigger] cells[self.cells@[j1] as int].answer) is Some
                && cells[self.cells@[j1] as int].answer == (#[trigger] cells[self.cells@[j2] as int].answer)
    }

    pub fn cells(&self) -> (r: &Vec<usize>)
        ensures
            r@ == self.cells@,
    {
        &self.cells
    }

    pub fn answer_candidate(&self) -> (r: &Vec<u8>)
        ensures
            r@ == self.answer_candidate@,
    {
        &self.answer_candidate
    }

    /// Get lonely, in the group: every pair of a still-remaining symbol
    /// held as a candidate by exactly one member cell and that cell's
    /// position.
    pub fn get_lonely(&self, cells: &Vec<Cell>) -> (r: Vec<(Position, u8)>)
        requires
            self.members_bound(cells@.len() as int),
        ensures
            r@ == self.lonelies(cells@),
    {
        let mut lonelies: Vec<(Position, u8)> = Vec::new();
        let mut ci: usize = 0;
        while ci < self.answer_candidate.len()
            invariant
                0 <= ci <= self.answer_candidate@.len(),
                self.members_bound(cells@.len() as int),
                lonelies@ == self.lonelies_to(cells@, ci as int),
            decreases self.answer_candidate@.len() - ci,
        {
            let v = self.answer_candidate[ci];
            let mut count: usize = 0;
            let mut first_pos: Option<Position> = None;
            let mut j: usize = 0;
            proof {
                lemma_first_holder_lb(self, cells@, v, 0);
            }
            while j < self.cells.len()
                invariant
                    0 <= j <= self.cells@.len(),
                    self.members_bound(cells@.len() as int),
                    count == self.holder_count_to(cells@, v, j as int),
                    count <= j,
                    first_pos matches Some(p) ==> {
                        let f = self.first_holder_from(cells@, v, 0);
                        0 <= f < j && p == cells@[self.cells@[f] as int].pos
                    },
                    first_pos is None ==> self.first_holder_from(cells@, v, 0) >= j,
                decreases self.cells@.len() - j,
            {
                let idx = self.cells[j];
                if cells[idx].has_answer_candidate(v) {
                    if first_pos.is_none() {
                        proof {
                            lemma_first_holder_step(self, cells@, v, j as int);
                        }
                        first_pos = Some(cells[idx].pos());
                    }
                    count = count + 1;
                } else {
                    proof {
                        if first_pos is None {
                            lemma_first_holder_step(self, cells@, v, j as int);
                        }
                    }
                }
                j = j + 1;
            }
            if count == 1 {
                match first_pos {
                    Some(p) => {
                        lonelies.push((p, v));
                        proof {
                            assert(lonelies@ =~= self.lonelies_to(cells@, ci as int + 1));
                        }
                    },
                    None => {
                        proof {
                            lemma_holder_count_zero_of_no_first(self, cells@, v);
                            assert(false);
                        }
                    },
                }
            }
            ci = ci + 1;
        }
        lonelies
    }

    /// Remove the symbol from the remaining list and from every member
    /// cell's candidates.
    pub fn remove_answer_candidate(&mut self, cells: &mut Vec<Cell>, answer: u8)
        requires
            old(self).members_bound(old(cells)@.len() as int),
            old(self).members_distinct(),
        ensures
            final(self).cells@ == old(self).cells@,
            final(self).answer_candidate@ == without_symbol(old(self).answer_candidate@, answer),
            final(cells)@.len() == old(cells)@.len(),
            forall|i: int|
                0 <= i < final(cells)@.len() ==> (#[trigger] final(cells)@[i]).pos == old(
                    cells,
                )@[i].pos && final(cells)@[i].answer == old(cells)@[i].answer,
            forall|i: int|
                0 <= i < final(cells)@.len() ==> (#[trigger] final(cells)@[i]).answer_candidate@
                    == if old(self).is_member(i) {
                    remove_candidate_spec(old(cells)@[i].answer_candidate@, answer)
                } else {
                    old(cells)@[i].answer_candidate@
                },
    {
        let filtered = filter_out(&self.answer_candidate, answer);
        self.answer_candidate = filtered;
        let ghost orig = cells@;
        let mut j: usize = 0;
        while j < self.cells.len()
            invariant
                0 <= j <= self.cells@.len(),
                self.members_bound(cells@.len() as int),
                self.members_distinct(),
                cells@.len() == orig.len(),
                forall|i: int|
                    0 <= i < cells@.len() ==> (#[trigger] cells@[i]).pos == orig[i].pos
                        && cells@[i].answer == orig[i].answer,
                forall|i: int|
                    0 <= i < cells@.len() ==> (#[trigger] cells@[i]).answer_candidate@
                        == if exists|j2: int|
                        0 <= j2 < j && #[trigger] self.cells@[j2] == i {
                        remove_candidate_spec(orig[i].answer_candidate@, answer)
                    } else {
                        orig[i].answer_candidate@
                    },
            decreases self.cells@.len() - j,
        {
            let idx = self.cells[j];
            proof {
                assert(!(exists|j2: int| 0 <= j2 < j && #[trigger] self.cells@[j2] == idx));
            }
            cells[idx].remove_answer_candidate(answer);
            proof {
                assert(self.cells@[j as int] == idx);
            }
            j = j + 1;
        }
    }

    pub fn is_all_clear_answer_candidate(&self) -> (r: bool)
        ensures
            r == (self.answer_candidate@.len() == 0),
    {
        self.answer_candidate.len() == 0
    }

    /// Whether two member cells confirm the same symbol.
    pub fn is_duplicate_answer(&self, cells: &Vec<Cell>) -> (r: bool)
        requires
            self.members_bound(cells@.len() as int),
        ensures
            r == self.has_duplicate_answer(cells@),
    {
        let mut j1: usize = 0;
        while j1 < self.cells.len()
            invariant
                0 <= j1 <= self.cells@.len(),
                self.members_bound(cells@.len() as int),
                !(exists|a: int, b: int|
                    0 <= a < b < self.cells@.len() && a < j1 && (#[trigger] cells@[self.cells@[a] as int].answer) is Some
                        && cells@[self.cells@[a] as int].answer == (
                    #[trigger] cells@[self.cells@[b] as int].answer)),
            decreases self.cells@.len() - j1,
        {
            let a1 = cells[self.cells[j1]].answer();
            if a1.is_some() {
                let mut j2: usize = j1 + 1;
                while j2 < self.cells.len()
                    invariant
                        0 <= j1 < j2 <= self.cells@.len(),
                        self.members_bound(cells@.len() as int),
                        a1 == cells@[self.cells@[j1 as int] as int].answer,
                        a1 is Some,
                        forall|b: int|
                            j1 < b < j2 ==> cells@[self.cells@[j1 as int] as int].answer != (
                            #[trigger] cells@[self.cells@[b] as int].answer),
                    decreases self.cells@.len() - j2,
                {
                    let a2 = cells[self.cells[j2]].answer();
                    if a2.is_some() {
                        if a1.unwrap() == a2.unwrap() {
                            return true;
                        }
                    }
                    j2 = j2 + 1;
                }
            }
            j1 = j1 + 1;
        }
        false
    }

    /// How many member cells carry an answer.
    pub fn answer_count(&self, cells: &Vec<Cell>) -> (r: usize)
        requires
            self.members_bound(cells@.len() as int),
        ensures
            r == self.answer_count_spec(cells@),
    {
        let mut count: usize = 0;
        let mut j: usize = 0;
        while j < self.cells.len()
            invariant
                0 <= j <= self.cells@.len(),
                self.members_bound(cells@.len() as int),
                count == self.answer_count_to(cells@, j as int),
                count <= j,
            decreases self.cells@.len() - j,
        {
            if cells[self.cells[j]].answer().is_some() {
                count = count + 1;
            }
            j = j + 1;
        }
        count
    }

    /// Put the symbol back into the remaining list, unless a member still
    /// confirms it or the list already holds it.
    pub fn restore_answer_candidate(&mut self, cells: &Vec<Cell>, answer: u8)
        requires
            old(self).members_bound(cells@.len() as int),
        ensures
            final(self).cells@ == old(self).cells@,
            final(self).answer_candidate@ == if !old(self).some_member_answers(cells@, answer)
                && !old(self).answer_candidate@.contains(answer) {
                old(self).answer_candidate@.push(answer)
            } else {
                old(self).answer_candidate@
            },
    {
        let mut j: usize = 0;
        while j < self.cells.len()
            invariant
                0 <= j <= self.cells@.len(),
                self.members_bound(cells@.len() as int),
                forall|j2: int|
                    0 <= j2 < j ==> cells@[#[trigger] self.cells@[j2] as int].answer != Some(
                        answer,
                    ),
            decreases self.cells@.len() - j,
        {
            let idx = self.cells[j];
            match cells[idx].answer() {
                Some(a) => {
                    if a == answer {
                        return ;
                    }
                },
                None => {},
            }
            j = j + 1;
        }
        let mut i: usize = 0;
        while i < self.answer_candidate.len()
            invariant
                0 <= i <= self.answer_candidate@.len(),
                forall|i2: int| 0 <= i2 < i ==> self.answer_candidate@[i2] != answer,
            decreases self.answer_candidate@.len() - i,
        {
            if self.answer_candidate[i] == answer {
                return ;
            }
            i = i + 1;
        }
        self.answer_candidate.push(answer);
    }
}

/// Removing a symbol keeps a distinct list distinct and adds no new
/// elements.
pub proof fn lemma_without_symbol_keeps(s: Seq<u8>, answer: u8)
    ensures
        distinct_seq(s) ==> distinct_seq(without_symbol(s, answer)),
        forall|x: u8| without_symbol(s, answer).contains(x) ==> s.contains(x),
        forall|x: u8| x != answer && s.contains(x) ==> without_symbol(s, answer).contains(x),
        without_symbol(s, answer).len() <= s.len(),
        !without_symbol(s, answer).contains(answer),
    decreases s.len(),
{
    reveal(Seq::filter);
    if s.len() > 0 {
        let dl = s.drop_last();
        lemma_without_symbol_keeps(dl, answer);
        assert forall|x: u8| x != answer && s.contains(x) implies without_symbol(
            s,
            answer,
        ).contains(x) by {
            let j = choose|j: int| 0 <= j < s.len() && s[j] == x;
            if j < s.len() - 1 {
                assert(dl[j] == x);
                assert(dl.contains(x));
                assert(without_symbol(dl, answer).contains(x));
                let q = choose|q: int|
                    0 <= q < without_symbol(dl, answer).len() && without_symbol(dl, answer)[q]
                        == x;
                assert(without_symbol(s, answer)[q] == x);
            } else {
                assert(s.last() == x);
                assert(without_symbol(s, answer).last() == x);
            }
        }
        assert(!without_symbol(s, answer).contains(answer)) by {
            if without_symbol(s, answer).contains(answer) {
                let q = choose|q: int|
                    0 <= q < without_symbol(s, answer).len() && without_symbol(s, answer)[q]
                        == answer;
                if q < without_symbol(dl, answer).len() {
                    assert(without_symbol(dl, answer).contains(answer));
                }
            }
        }
        assert forall|x: u8| without_symbol(s, answer).contains(x) implies s.contains(x) by {
            if without_symbol(dl, answer).contains(x) {
                assert(dl.contains(x));
                let j = choose|j: int| 0 <= j < dl.len() && dl[j] == x;
                assert(s[j] == x);
            } else {
                assert(x == s.last());
                assert(s[s.len() - 1] == x);
            }
        }
        if distinct_seq(s) {
            assert(distinct_seq(dl)) by {
                assert forall|i: int, j: int| 0 <= i < j < dl.len() implies dl[i] != dl[j] by {
                    assert(s[i] == dl[i] && s[j] == dl[j]);
                }
            }
            if s.last() != answer {
                let f = without_symbol(dl, answer);
                assert(!f.contains(s.last())) by {
                    if f.contains(s.last()) {
                        assert(dl.contains(s.last()));
                        let j = choose|j: int| 0 <= j < dl.len() && dl[j] == s.last();
                        assert(s[j] == s[s.len() - 1]);
                    }
                }
                assert forall|i: int, j: int|
                    0 <= i < j < without_symbol(s, answer).len() implies without_symbol(
                    s,
                    answer,
                )[i] != without_symbol(s, answer)[j] by {
                    if j < f.len() {
                    } else {
                        assert(without_symbol(s, answer)[j] == s.last());
                        assert(f.contains(f[i]));
                    }
                }
            }
        }
    }
}

/// A copy of `v` without the occurrences of `bad`.
pub fn filter_out(v: &Vec<u8>, bad: u8) -> (r: Vec<u8>)
    ensures
        r@ == without_symbol(v@, bad),
{
    let mut r: Vec<u8> = Vec::new();
    let mut i: usize = 0;
    proof {
        reveal(Seq::filter);
        assert(v@.subrange(0, 0) =~= Seq::<u8>::empty());
        assert(r@ == without_symbol(v@.subrange(0, 0), bad));
    }
    while i < v.len()
        invariant
            0 <= i <= v@.len(),
            r@ == without_symbol(v@.subrange(0, i as int), bad),
        decreases v@.len() - i,
    {
        proof {
            reveal(Seq::filter);
            assert(v@.subrange(0, i as int + 1).drop_last() =~= v@.subrange(0, i as int));
            assert(v@.subrange(0, i as int + 1).last() == v@[i as int]);
        }
        if v[i] != bad {
            r.push(v[i]);
        }
        i = i + 1;
    }
    proof {
        assert(v@.subrange(0, v@.len() as int) =~= v@);
    }
    r
}

/// The row groups, one per `y`, members left to right.
pub fn create_horizontal_groups(cells: &Vec<Cell>, setting: &GameSetting) -> (r: Vec<Group>)
    requires
        setting.wf(),
        cells@.len() == setting.side_spec() * setting.side_spec(),
    ensures
        r@.len() == setting.side_spec(),
        forall|k: int|
            0 <= k < r@.len() ==> (#[trigger] r@[k]).wf_members(
                setting.block_size.height as int,
                setting.block_size.width as int,
                k,
            ) && r@[k].answer_candidate@ == setting.answer_candidate@,
{
    let side = setting.side_size();
    let ghost h = setting.block_size.height as int;
    let ghost w = setting.block_size.width as int;
    let mut r: Vec<Group> = Vec::new();
    let mut y: usize = 0;
    while y < side as usize
        invariant
            0 <= y <= side as int,
            side == setting.side_spec(),
            setting.wf(),
            h == setting.block_size.height as int,
            w == setting.block_size.width as int,
            r@.len() == y,
            forall|k: int|
                0 <= k < r@.len() ==> (#[trigger] r@[k]).wf_members(h, w, k)
                    && r@[k].answer_candidate@ == setting.answer_candidate@,
        decreases side as int - y,
    {
        let mut members: Vec<usize> = Vec::new();
        let mut x: usize = 0;
        while x < side as usize
            invariant
                0 <= x <= side as int,
                0 <= y < side as int,
                side == setting.side_spec(),
                setting.wf(),
                h == setting.block_size.height as int,
                w == setting.block_size.width as int,
                members@.len() == x,
                forall|j: int|
                    0 <= j < members@.len() ==> #[trigger] members@[j] == group_member_spec(
                        h,
                        w,
                        y as int,
                        j,
                    ),
            decreases side as int - x,
        {
            proof {
                assert(y * side as int + x < side * side) by (nonlinear_arith)
                    requires 0 <= y < side as int, 0 <= x < side as int;
                assert(side as int * side as int <= 65025) by (nonlinear_arith)
                    requires side as int <= 255;
            }
            members.push(y * side as usize + x);
            x = x + 1;
        }
        r.push(Group { cells: members, answer_candidate: setting.answer_candidate() });
        y = y + 1;
    }
    r
}

/// The column groups, one per `x`, members top to bottom.
pub fn create_vertical_groups(cells: &Vec<Cell>, setting: &GameSetting) -> (r: Vec<Group>)
    requires
        setting.wf(),
        cells@.len() == setting.side_spec() * setting.side_spec(),
    ensures
        r@.len() == setting.side_spec(),
        forall|k: int|
            0 <= k < r@.len() ==> (#[trigger] r@[k]).wf_members(
                setting.block_size.height as int,
                setting.block_size.width as int,
                setting.side_spec() + k,
            ) && r@[k].answer_candidate@ == setting.answer_candidate@,
{
    let side = setting.side_size();
    let ghost h = setting.block_size.height as int;
    let ghost w = setting.block_size.width as int;
    let mut r: Vec<Group> = Vec::new();
    let mut x: usize = 0;
    while x < side as usize
        invariant
            0 <= x <= side as int,
            side == setting.side_spec(),
            setting.wf(),
            h == setting.block_size.height as int,
            w == setting.block_size.width as int,
            r@.len() == x,
            forall|k: int|
                0 <= k < r@.len() ==> (#[trigger] r@[k]).wf_members(h, w, side as int + k)
                    && r@[k].answer_candidate@ == setting.answer_candidate@,
        decreases side as int - x,
    {
        let mut members: Vec<usize> = Vec::new();
        let mut y: usize = 0;
        while y < side as usize
            invariant
                0 <= y <= side as int,
                0 <= x < side as int,
                side == setting.side_spec(),
                setting.wf(),
                h == setting.block_size.height as int,
                w == setting.block_size.width as int,
                members@.len() == y,
                forall|j: int|
                    0 <= j < members@.len() ==> #[trigger] members@[j] == group_member_spec(
                        h,
                        w,
                        side as int + x,
                        j,
                    ),
            decreases side as int - y,
        {
            proof {
                assert(y * side as int + x < side * side) by (nonlinear_arith)
                    requires 0 <= y < side as int, 0 <= x < side as int;
                assert(side as int * side as int <= 65025) by (nonlinear_arith)
                    requires side as int <= 255;
            }
            members.push(y * side as usize + x);
            y = y + 1;
        }
        r.push(Group { cells: members, answer_candidate: setting.answer_candidate() });
        x = x + 1;
    }
    r
}

/// The top-left corner of each block, in row-major tile order.
pub fn create_block_start_positions(setting: &GameSetting) -> (r: Vec<Position>)
    requires
        setting.wf(),
    ensures
        r@.len() == setting.side_spec(),
        forall|b: int|
            0 <= b < r@.len() ==> (#[trigger] r@[b]).0 == (b % setting.block_size.height as int)
                * setting.block_size.width as int && r@[b].1 == (b
                / setting.block_size.height as int) * setting.block_size.height as int,
{
    let h = setting.block_height();
    let w = setting.block_width();
    let ghost hh = h as int;
    let ghost ww = w as int;
    let mut r: Vec<Position> = Vec::new();
    let mut ty: u8 = 0;
    while ty < w
        invariant
            0 <= ty <= w,
            setting.wf(),
            h == setting.block_size.height,
            w == setting.block_size.width,
            hh == h as int,
            ww == w as int,
            r@.len() == ty * hh,
            forall|b: int|
                0 <= b < r@.len() ==> (#[trigger] r@[b]).0 == (b % hh) * ww && r@[b].1 == (b / hh)
                    * hh,
        decreases w - ty,
    {
        let mut tx: u8 = 0;
        while tx < h
            invariant
                0 <= tx <= h,
                0 <= ty < w,
                setting.wf(),
                h == setting.block_size.height,
                w == setting.block_size.width,
                hh == h as int,
                ww == w as int,
                r@.len() == ty * hh + tx,
                forall|b: int|
                    0 <= b < r@.len() ==> (#[trigger] r@[b]).0 == (b % hh) * ww && r@[b].1 == (b
                        / hh) * hh,
            decreases h - tx,
        {
            proof {
                assert(tx * ww <= (hh - 1) * ww < hh * ww) by (nonlinear_arith)
                    requires 0 <= tx < hh, 1 <= ww;
                assert(ty * hh <= (ww - 1) * hh < ww * hh) by (nonlinear_arith)
                    requires 0 <= ty < ww, 1 <= hh;
                assert(hh * ww <= 255 && ww * hh <= 255) by (nonlinear_arith)
                    requires hh * ww == setting.side_spec(), setting.side_spec() <= 255;
                let b = r@.len() as int;
                vstd::arithmetic::div_mod::lemma_fundamental_div_mod_converse(
                    b,
                    hh,
                    ty as int,
                    tx as int,
                );
            }
            r.push(Position(tx * w, ty * h));
            tx = tx + 1;
        }
        proof {
            assert((ty + 1) * hh == ty * hh + hh) by (nonlinear_arith);
        }
        ty = ty + 1;
    }
    proof {
        assert(ww * hh == setting.side_spec()) by (nonlinear_arith)
            requires hh * ww == setting.side_spec();
    }
    r
}

/// The block groups, one per tile, members row-major within the tile.
pub fn create_block_groups(cells: &Vec<Cell>, setting: &GameSetting) -> (r: Vec<Group>)
    requires
        setting.wf(),
        cells@.len() == setting.side_spec() * setting.side_spec(),
    ensures
        r@.len() == setting.side_spec(),
        forall|k: int|
            0 <= k < r@.len() ==> (#[trigger] r@[k]).wf_members(
                setting.block_size.height as int,
                setting.block_size.width as int,
                2 * setting.side_spec() + k,
            ) && r@[k].answer_candidate@ == setting.answer_candidate@,
{
    let side = setting.side_size();
    let h = setting.block_height();
    let w = setting.block_width();
    let ghost hh = h as int;
    let ghost ww = w as int;
    let ghost s = side as int;
    let starts = create_block_start_positions(setting);
    let mut r: Vec<Group> = Vec::new();
    let mut b: usize = 0;
    while b < starts.len()
        invariant
            0 <= b <= starts@.len(),
            starts@.len() == s,
            s == setting.side_spec(),
            side == s,
            setting.wf(),
            hh == setting.block_size.height as int,
            ww == setting.block_size.width as int,
            h == setting.block_size.height,
            w == setting.block_size.width,
            forall|b2: int|
                0 <= b2 < starts@.len() ==> (#[trigger] starts@[b2]).0 == (b2 % hh) * ww
                    && starts@[b2].1 == (b2 / hh) * hh,
            r@.len() == b,
            forall|k: int|
                0 <= k < r@.len() ==> (#[trigger] r@[k]).wf_members(hh, ww, 2 * s + k)
                    && r@[k].answer_candidate@ == setting.answer_candidate@,
        decreases starts@.len() - b,
    {
        let start = starts[b];
        let mut members: Vec<usize> = Vec::new();
        let mut dy: u8 = 0;
        while dy < h
            invariant
                0 <= dy <= hh,
                0 <= b < s,
                s == setting.side_spec(),
                side == s,
                setting.wf(),
                hh == setting.block_size.height as int,
                ww == setting.block_size.width as int,
                h == setting.block_size.height,
                w == setting.block_size.width,
                start.0 == ((b as int) % hh) * ww,
                start.1 == ((b as int) / hh) * hh,
                members@.len() == dy * ww,
                forall|j: int|
                    0 <= j < members@.len() ==> #[trigger] members@[j] == group_member_spec(
                        hh,
                        ww,
                        2 * s + b,
                        j,
                    ),
            decreases hh - dy,
        {
            let mut dx: u8 = 0;
            while dx < w
                invariant
                    0 <= dx <= ww,
                    0 <= dy < hh,
                    0 <= b < s,
                    s == setting.side_spec(),
                    side == s,
                    setting.wf(),
                    hh == setting.block_size.height as int,
                    ww == setting.block_size.width as int,
                    h == setting.block_size.height,
                    w == setting.block_size.width,
                    start.0 == ((b as int) % hh) * ww,
                    start.1 == ((b as int) / hh) * hh,
                    members@.len() == dy * ww + dx,
                    forall|j: int|
                        0 <= j < members@.len() ==> #[trigger] members@[j] == group_member_spec(
                            hh,
                            ww,
                            2 * s + b,
                            j,
                        ),
                decreases ww - dx,
            {
                proof {
                    let j = members@.len() as int;
                    let bi = b as int;
                    let y0 = start.1 as int;
                    let x0 = start.0 as int;
                    vstd::arithmetic::div_mod::lemma_fundamental_div_mod_converse(
                        j,
                        ww,
                        dy as int,
                        dx as int,
                    );
                    vstd::arithmetic::div_mod::lemma_mod_bound(bi, hh);
                    assert(0 <= bi / hh <= ww - 1) by (nonlinear_arith)
                        requires 0 <= bi < hh * ww, 1 <= hh, 1 <= ww;
                    assert(y0 + dy < s) by (nonlinear_arith)
                        requires
                            y0 == (bi / hh) * hh,
                            0 <= bi / hh <= ww - 1,
                            0 <= dy < hh,
                            s == hh * ww,
                    ;
                    assert(x0 + dx < s) by (nonlinear_arith)
                        requires
                            x0 == (bi % hh) * ww,
                            0 <= bi % hh <= hh - 1,
                            0 <= dx < ww,
                            s == hh * ww,
                    ;
                    assert((y0 + dy) * s + x0 + dx < s * s) by (nonlinear_arith)
                        requires 0 <= y0 + dy < s, 0 <= x0 + dx < s;
                    assert(s * s <= 65025) by (nonlinear_arith)
                        requires 1 <= s <= 255;
                }
                let yy: usize = start.1 as usize + dy as usize;
                let xx: usize = start.0 as usize + dx as usize;
                members.push(yy * side as usize + xx);
                dx = dx + 1;
            }
            proof {
                assert((dy + 1) * ww == dy * ww + ww) by (nonlinear_arith);
            }
            dy = dy + 1;
        }
        r.push(Group { cells: members, answer_candidate: setting.answer_candidate() });
        b = b + 1;
    }
    r
}

/// All groups: rows, then columns, then blocks.
pub fn create_groups(cells: &Vec<Cell>, setting: &GameSetting) -> (r: Vec<Group>)
    requires
        setting.wf(),
        cells@.len() == setting.side_spec() * setting.side_spec(),
    ensures
        r@.len() == 3 * setting.side_spec(),
        forall|k: int|
            0 <= k < r@.len() ==> (#[trigger] r@[k]).wf_members(
                setting.block_size.height as int,
                setting.block_size.width as int,
                k,
            ) && r@[k].answer_candidate@ == setting.answer_candidate@,
{
    let ghost s = setting.side_spec();
    let mut r = create_horizontal_groups(cells, setting);
    let mut vg = create_vertical_groups(cells, setting);
    let mut gg = create_block_groups(cells, setting);
    let ghost vg0 = vg@;
    let mut i: usize = 0;
    while vg.len() > 0
        invariant
            0 <= i <= vg0.len(),
            i == vg0.len() - vg@.len(),
            vg@ =~= vg0.skip(i as int),
            r@.len() == s + i,
            s == setting.side_spec(),
            setting.wf(),
            vg0.len() == s,
            forall|k: int|
                0 <= k < vg0.len() ==> (#[trigger] vg0[k]).wf_members(
                    setting.block_size.height as int,
                    setting.block_size.width as int,
                    s + k,
                ) && vg0[k].answer_candidate@ == setting.answer_candidate@,
            forall|k: int|
                0 <= k < r@.len() ==> (#[trigger] r@[k]).wf_members(
                    setting.block_size.height as int,
                    setting.block_size.width as int,
                    k,
                ) && r@[k].answer_candidate@ == setting.answer_candidate@,
        decreases vg0.len() - i,
    {
        let g = vg.remove(0);
        proof {
            assert(g == vg0[i as int]);
        }
        r.push(g);
        i = i + 1;
    }
    let ghost gg0 = gg@;
    let mut i2: usize = 0;
    while gg.len() > 0
        invariant
            0 <= i2 <= gg0.len(),
            i2 == gg0.len() - gg@.len(),
            gg@ =~= gg0.skip(i2 as int),
            r@.len() == 2 * s + i2,
            s == setting.side_spec(),
            setting.wf(),
            gg0.len() == s,
            forall|k: int|
                0 <= k < gg0.len() ==> (#[trigger] gg0[k]).wf_members(
                    setting.block_size.height as int,
                    setting.block_size.width as int,
                    2 * s + k,
                ) && gg0[k].answer_candidate@ == setting.answer_candidate@,
            forall|k: int|
                0 <= k < r@.len() ==> (#[trigger] r@[k]).wf_members(
                    setting.block_size.height as int,
                    setting.block_size.width as int,
                    k,
                ) && r@[k].answer_candidate@ == setting.answer_candidate@,
        decreases gg0.len() - i2,
    {
        let g = gg.remove(0);
        proof {
            assert(g == gg0[i2 as int]);
        }
        r.push(g);
        i2 = i2 + 1;
    }
    r
}

proof fn lemma_first_holder_lb(g: &Group, cells: Seq<Cell>, v: u8, j: int)
    requires
        0 <= j <= g.cells@.len(),
    ensures
        j <= g.first_holder_from(cells, v, j) <= g.cells@.len(),
    decreases g.cells@.len() - j,
{
    if j < g.cells@.len() && !cells[g.cells@[j] as int].answer_candidate@.contains(v) {
        lemma_first_holder_lb(g, cells, v, j + 1);
    }
}

proof fn lemma_first_holder_step(g: &Group, cells: Seq<Cell>, v: u8, j: int)
    requires
        0 <= j < g.cells@.len(),
        g.first_holder_from(cells, v, 0) >= j,
    ensures
        cells[g.cells@[j] as int].answer_candidate@.contains(v) ==> g.first_holder_from(cells, v, 0)
            == j,
        !cells[g.cells@[j] as int].answer_candidate@.contains(v) ==> g.first_holder_from(
            cells,
            v,
            0,
        ) >= j + 1,
{
    lemma_first_holder_chain(g, cells, v, 0, j);
    lemma_first_holder_lb(g, cells, v, j + 1);
}

/// If the search from `a` has not stopped before `j`, it agrees with the
/// search from `j`.
proof fn lemma_first_holder_chain(g: &Group, cells: Seq<Cell>, v: u8, a: int, j: int)
    requires
        0 <= a <= j < g.cells@.len(),
        g.first_holder_from(cells, v, a) >= j,
    ensures
        g.first_holder_from(cells, v, a) == g.first_holder_from(cells, v, j),
    decreases j - a,
{
    if a < j {
        lemma_first_holder_chain(g, cells, v, a + 1, j);
    }
}

pub proof fn lemma_holder_count_zero_of_no_first(g: &Group, cells: Seq<Cell>, v: u8)
    requires
        g.first_holder_from(cells, v, 0) >= g.cells@.len(),
    ensures
        g.holder_count(cells, v) == 0,
{
    lemma_holder_count_zero_range(g, cells, v, g.cells@.len() as int);
}

proof fn lemma_holder_count_zero_range(g: &Group, cells: Seq<Cell>, v: u8, n: int)
    requires
        n <= g.cells@.len(),
        g.first_holder_from(cells, v, 0) >= g.cells@.len(),
    ensures
        g.holder_count_to(cells, v, n) == 0,
    decreases n,
{
    if n > 0 {
        lemma_holder_count_zero_range(g, cells, v, n - 1);
        if cells[g.cells@[n - 1] as int].answer_candidate@.contains(v) {
            lemma_first_holder_chain(g, cells, v, 0, n - 1);
            assert(false);
        }
    }
}

/// When the first-holder search finds a member, that member does hold the
/// symbol as a candidate.
pub proof fn lemma_first_holder_found(g: &Group, cells: Seq<Cell>, v: u8, j: int)
    requires
        0 <= j <= g.cells@.len(),
    ensures
        g.first_holder_from(cells, v, j) < g.cells@.len() ==> cells[g.cells@[g.first_holder_from(
            cells,
            v,
            j,
        )] as int].answer_candidate@.contains(v),
        j <= g.first_holder_from(cells, v, j) <= g.cells@.len(),
    decreases g.cells@.len() - j,
{
    if j < g.cells@.len() && !cells[g.cells@[j] as int].answer_candidate@.contains(v) {
        lemma_first_holder_found(g, cells, v, j + 1);
    }
}

/// The lonely list over the first `n` symbols is empty exactly when none
/// of them is held by a single member.
pub proof fn lemma_lonelies_empty(g: &Group, cells: Seq<Cell>, n: int)
    requires
        0 <= n <= g.answer_candidate@.len(),
    ensures
        (g.lonelies_to(cells, n).len() == 0) <==> (forall|i: int|
            0 <= i < n ==> g.holder_count(cells, #[trigger] g.answer_candidate@[i]) != 1),
    decreases n,
{
    if n > 0 {
        lemma_lonelies_empty(g, cells, n - 1);
    }
}

/// Every lonely entry names a position of a member cell that still holds
/// the entry's symbol as a candidate, and a symbol of the remaining list.
pub proof fn lemma_lonelies_entries(g: &Group, cells: Seq<Cell>, n: int)
    requires
        0 <= n <= g.answer_candidate@.len(),
    ensures
        forall|q: int|
            0 <= q < g.lonelies_to(cells, n).len() ==> g.entry_witnessed(
                cells,
                #[trigger] g.lonelies_to(cells, n)[q],
            ) && g.answer_candidate@.contains(g.lonelies_to(cells, n)[q].1) && g.holder_count(
                cells,
                g.lonelies_to(cells, n)[q].1,
            ) == 1,
    decreases n,
{
    if n > 0 {
        lemma_lonelies_entries(g, cells, n - 1);
        let v = g.answer_candidate@[n - 1];
        let prev = g.lonelies_to(cells, n - 1);
        let cur = g.lonelies_to(cells, n);
        assert(g.answer_candidate@.contains(v)) by {
            assert(g.answer_candidate@[n - 1] == v);
        }
        if g.holder_count(cells, v) == 1 {
            let f = g.first_holder_from(cells, v, 0);
            lemma_first_holder_found(g, cells, v, 0);
            if f >= g.cells@.len() {
                lemma_holder_count_zero_of_no_first(g, cells, v);
            }
            assert forall|q: int| 0 <= q < cur.len() implies g.entry_witnessed(
                cells,
                #[trigger] cur[q],
            ) && g.answer_candidate@.contains(cur[q].1) && g.holder_count(cells, cur[q].1)
                == 1 by {
                if q == cur.len() - 1 {
                    let e = cur[q];
                    assert(e == (cells[g.cells@[f] as int].pos, v));
                    assert(0 <= f < g.cells@.len() && cells[g.cells@[f] as int].pos == e.0
                        && cells[g.cells@[f] as int].answer_candidate@.contains(e.1));
                    assert(g.entry_witnessed(cells, e));
                } else {
                    assert(cur[q] == prev[q]);
                }
            }
        } else {
            assert(cur == prev);
        }
    }
}

/// A member that still holds the symbol contributes to the holder count.
pub proof fn lemma_holder_count_one(g: &Group, cells: Seq<Cell>, v: u8, m: int, n: int)
    requires
        0 <= m < n <= g.cells@.len(),
        cells[g.cells@[m] as int].answer_candidate@.contains(v),
    ensures
        g.holder_count_to(cells, v, n) >= 1,
    decreases n,
{
    lemma_holder_count_nonneg(g, cells, v, n - 1);
    if m < n - 1 {
        lemma_holder_count_one(g, cells, v, m, n - 1);
    }
}

pub proof fn lemma_holder_count_nonneg(g: &Group, cells: Seq<Cell>, v: u8, n: int)
    ensures
        g.holder_count_to(cells, v, n) >= 0,
    decreases n,
{
    if n > 0 {
        lemma_holder_count_nonneg(g, cells, v, n - 1);
    }
}

/// Two distinct members that still hold the symbol make the holder count
/// at least two.
pub proof fn lemma_two_holders(g: &Group, cells: Seq<Cell>, v: u8, m1: int, m2: int)
    requires
        0 <= m1 < m2 < g.cells@.len(),
        cells[g.cells@[m1] as int].answer_candidate@.contains(v),
        cells[g.cells@[m2] as int].answer_candidate@.contains(v),
    ensures
        g.holder_count(cells, v) >= 2,
{
    lemma_two_holders_to(g, cells, v, m1, m2, g.cells@.len() as int);
}

proof fn lemma_two_holders_to(g: &Group, cells: Seq<Cell>, v: u8, m1: int, m2: int, n: int)
    requires
        0 <= m1 < m2 < n <= g.cells@.len(),
        cells[g.cells@[m1] as int].answer_candidate@.contains(v),
        cells[g.cells@[m2] as int].answer_candidate@.contains(v),
    ensures
        g.holder_count_to(cells, v, n) >= 2,
    decreases n,
{
    if m2 == n - 1 {
        lemma_holder_count_one(g, cells, v, m1, n - 1);
    } else {
        lemma_two_holders_to(g, cells, v, m1, m2, n - 1);
    }
}

/// Arena index of every member of every group lies below `s * s`.
pub proof fn lemma_group_member_in_range(h: int, w: int, k: int, j: int)
    requires
        1 <= h,
        1 <= w,
        0 <= k < 3 * h * w,
        0 <= j < h * w,
    ensures
        0 <= group_member_spec(h, w, k, j) < (h * w) * (h * w),
{
    let s = h * w;
    assert(3 * h * w == 3 * (h * w)) by (nonlinear_arith);
    if k < s {
        assert(k * s + j < s * s) by (nonlinear_arith)
            requires 0 <= k < s, 0 <= j < s;
        assert(k * s + j >= 0) by (nonlinear_arith)
            requires 0 <= k, 0 <= j, 0 <= s;
    } else if k < 2 * s {
        assert(j * s + (k - s) < s * s) by (nonlinear_arith)
            requires 0 <= j < s, 0 <= k - s < s;
        assert(j * s >= 0) by (nonlinear_arith)
            requires 0 <= j, 0 <= s;
    } else {
        let b = k - 2 * s;
        let t = b / h;
        let u = b % h;
        let dy = j / w;
        let dx = j % w;
        assert(0 <= b < s);
        vstd::arithmetic::div_mod::lemma_mod_bound(b, h);
        vstd::arithmetic::div_mod::lemma_mod_bound(j, w);
        assert(0 <= t <= w - 1) by (nonlinear_arith)
            requires t == b / h, 0 <= b < h * w, 1 <= h, 1 <= w;
        assert(0 <= dy <= h - 1) by (nonlinear_arith)
            requires dy == j / w, 0 <= j < h * w, 1 <= h, 1 <= w;
        let y = t * h + dy;
        let x = u * w + dx;
        assert(0 <= y < s) by (nonlinear_arith)
            requires 0 <= t <= w - 1, 0 <= dy <= h - 1, y == t * h + dy, s == h * w;
        assert(0 <= x < s) by (nonlinear_arith)
            requires 0 <= u <= h - 1, 0 <= dx <= w - 1, x == u * w + dx, s == h * w;
        assert(0 <= y * s + x < s * s) by (nonlinear_arith)
            requires 0 <= y < s, 0 <= x < s;
    }
}

/// Within one group no member index repeats.
pub proof fn lemma_group_members_distinct(h: int, w: int, k: int, j1: int, j2: int)
    requires
        1 <= h,
        1 <= w,
        0 <= k < 3 * h * w,
        0 <= j1 < j2 < h * w,
    ensures
        group_member_spec(h, w, k, j1) != group_member_spec(h, w, k, j2),
{
    let s = h * w;
    assert(3 * h * w == 3 * (h * w)) by (nonlinear_arith);
    if k < s {
    } else if k < 2 * s {
        assert(j1 * s + (k - s) != j2 * s + (k - s)) by (nonlinear_arith)
            requires 0 <= j1 < j2, 1 <= s;
    } else {
        let b = k - 2 * s;
        let t = b / h;
        let u = b % h;
        vstd::arithmetic::div_mod::lemma_mod_bound(j1, w);
        vstd::arithmetic::div_mod::lemma_mod_bound(j2, w);
        let y1 = t * h + j1 / w;
        let x1 = u * w + j1 % w;
        let y2 = t * h + j2 / w;
        let x2 = u * w + j2 % w;
        vstd::arithmetic::div_mod::lemma_fundamental_div_mod(j1, w);
        vstd::arithmetic::div_mod::lemma_fundamental_div_mod(j2, w);
        if j1 / w == j2 / w {
            assert(j1 % w != j2 % w) by (nonlinear_arith)
                requires j1 != j2, j1 == w * (j1 / w) + j1 % w, j2 == w * (j2 / w) + j2 % w, j1 / w == j2 / w;
            assert(x1 != x2);
            assert(y1 * s + x1 != y2 * s + x2);
        } else {
            assert(y1 != y2) by (nonlinear_arith)
                requires j1 / w != j2 / w, y1 == t * h + j1 / w, y2 == t * h + j2 / w;
            assert(0 <= j1 / w && 0 <= j2 / w && j1 / w < h && j2 / w < h) by (nonlinear_arith)
                requires 0 <= j1 < h * w, 0 <= j2 < h * w, 1 <= h, 1 <= w;
            assert(0 <= x1 < s) by (nonlinear_arith)
                requires 0 <= u <= h - 1, 0 <= j1 % w < w, x1 == u * w + j1 % w, s == h * w;
            assert(0 <= x2 < s) by (nonlinear_arith)
                requires 0 <= u <= h - 1, 0 <= j2 % w < w, x2 == u * w + j2 % w, s == h * w;
            assert(y1 * s + x1 != y2 * s + x2) by (nonlinear_arith)
                requires y1 != y2, 0 <= x1 < s, 0 <= x2 < s, 1 <= s;
        }
        vstd::arithmetic::div_mod::lemma_mod_bound(b, h);
    }
}

} // verus!
