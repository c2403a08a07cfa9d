//! Undoing an answer.  The removed symbol is restored to the three groups
//! that contain the position, and the candidates of every open cell in
//! those groups are recomputed as the intersection of the remaining
//! symbols of its own row, column and block.
use vstd::prelude::*;

verus! {

use crate::normal_game::cell::Position;
use crate::normal_game::group;
use crate::normal_game::lemma_group_membership;
use crate::normal_game::lemma_groups_sane;
use crate::normal_game::lemma_unit_groups_in_range;
use crate::normal_game::NormalGame;
use crate::normal_game::setting::contains_u8;
use crate::normal_game::setting::distinct_seq;

/// The symbols of `1..=n`, in ascending order, that all three candidate
/// lists hold.
pub open spec fn inter3_to(c0: Seq<u8>, c1: Seq<u8>, c2: Seq<u8>, n: int) -> Seq<u8>
    decreases n,
{
    if n <= 0 || n > 255 {
        Seq::empty()
    } else {
        let rest = inter3_to(c0, c1, c2, n - 1);
        if c0.contains(n as u8) && c1.contains(n as u8) && c2.contains(n as u8) {
            rest.push(n as u8)
        } else {
            rest
        }
    }
}

/// The intersection is an ascending list of symbols within `1..=n`.
pub proof fn lemma_inter3_props(c0: Seq<u8>, c1: Seq<u8>, c2: Seq<u8>, n: int)
    ensures
        distinct_seq(inter3_to(c0, c1, c2, n)),
        forall|q: int|
            0 <= q < inter3_to(c0, c1, c2, n).len() ==> 1 <= #[trigger] inter3_to(
                c0,
                c1,
                c2,
                n,
            )[q] <= n,
    decreases n,
{
    if 0 < n <= 255 {
        lemma_inter3_props(c0, c1, c2, n - 1);
    }
}

impl NormalGame {
    /// The candidates an open cell at `p` is owed: the symbols still
    /// remaining in its row, its column and its block alike, ascending.
    pub open spec fn recomputed_candidates(&self, p: Position) -> Seq<u8> {
        inter3_to(
            self.groups@[self.row_group_of(p)].answer_candidate@,
            self.groups@[self.col_group_of(p)].answer_candidate@,
            self.groups@[self.block_group_of(p)].answer_candidate@,
            self.side(),
        )
    }

    /// What `remove_answer` does when the cell held `v`: the cell opens,
    /// `v` returns to the remaining list of the three groups of `pos`
    /// where no other member still confirms it, and every open cell of
    /// those groups gets the recomputed intersection as its candidates.
    pub open spec fn remove_answer_cleared(&self, post: NormalGame, pos: Position, v: u8) -> bool {
        let i = self.cell_index(pos.0 as int, pos.1 as int);
        &&& post.answered_count == self.answered_count - 1
        &&& post.cells@.len() == self.cells@.len()
        &&& post.groups@.len() == self.groups@.len()
        &&& forall|j: int|
            0 <= j < post.cells@.len() ==> (#[trigger] post.cells@[j]).pos == self.cells@[j].pos
        &&& post.cells@[i].answer is None
        &&& forall|j: int|
            0 <= j < post.cells@.len() && j != i ==> (#[trigger] post.cells@[j]).answer
                == self.cells@[j].answer
        &&& forall|k: int|
            0 <= k < post.groups@.len() ==> (#[trigger] post.groups@[k]).cells@
                == self.groups@[k].cells@
        &&& forall|k: int|
            0 <= k < post.groups@.len() ==> (#[trigger] post.groups@[k]).answer_candidate@
                == if self.is_group_of(pos, k) {
                if !self.groups@[k].some_member_answers(post.cells@, v)
                    && !self.groups@[k].answer_candidate@.contains(v) {
                    self.groups@[k].answer_candidate@.push(v)
                } else {
                    self.groups@[k].answer_candidate@
                }
            } else {
                self.groups@[k].answer_candidate@
            }
        &&& forall|j: int|
            0 <= j < post.cells@.len() ==> (#[trigger] post.cells@[j]).answer_candidate@
                == if post.cells@[j].answer is None && self.same_unit(pos, self.cells@[j].pos) {
                post.recomputed_candidates(self.cells@[j].pos)
            } else {
                self.cells@[j].answer_candidate@
            }
    }

    /// The symbols that every one of the three listed groups still holds
    /// in its remaining list, in ascending symbol order.
    pub fn find_answer_candidate_that_all_groups_hold(&self, target_groups: &Vec<usize>) -> (r: Vec<
        u8,
    >)
        requires
            self.setting.wf(),
            target_groups@.len() == 3,
            forall|a: int| 0 <= a < 3 ==> #[trigger] target_groups@[a] < self.groups@.len(),
        ensures
            r@ == inter3_to(
                self.groups@[target_groups@[0] as int].answer_candidate@,
                self.groups@[target_groups@[1] as int].answer_candidate@,
                self.groups@[target_groups@[2] as int].answer_candidate@,
                self.side(),
            ),
    {
        let ghost c0 = self.groups@[target_groups@[0] as int].answer_candidate@;
        let ghost c1 = self.groups@[target_groups@[1] as int].answer_candidate@;
        let ghost c2 = self.groups@[target_groups@[2] as int].answer_candidate@;
        let side = self.setting.side_size();
        let g0 = target_groups[0];
        let g1 = target_groups[1];
        let g2 = target_groups[2];
        let mut r: Vec<u8> = Vec::new();
        let mut v: u16 = 1;
        while v <= side as u16
            invariant
                1 <= v <= side as u16 + 1,
                side == self.setting.side_spec(),
                side <= 255,
                g0 < self.groups@.len(),
                g1 < self.groups@.len(),
                g2 < self.groups@.len(),
                c0 == self.groups@[g0 as int].answer_candidate@,
                c1 == self.groups@[g1 as int].answer_candidate@,
                c2 == self.groups@[g2 as int].answer_candidate@,
                r@ == inter3_to(c0, c1, c2, v - 1),
            decreases side as int + 1 - v,
        {
            let sym = v as u8;
            if contains_u8(&self.groups[g0].answer_candidate, sym) && contains_u8(
                &self.groups[g1].answer_candidate,
                sym,
            ) && contains_u8(&self.groups[g2].answer_candidate, sym) {
                r.push(sym);
            }
            v = v + 1;
        }
        r
    }

    /// Clears the answer at `pos`, if any, and hands it back, restoring
    /// candidates as the undo demands.  The candidates an open cell ends
    /// with are exactly the symbols simultaneously remaining unconfirmed
    /// in its row, column and block.
    pub fn remove_answer(&mut self, pos: Position) -> (r: Option<u8>)
        requires
            old(self).wf(),
            old(self).pos_in_range(pos),
        ensures
            final(self).wf(),
            final(self).setting == old(self).setting,
            r == old(self).cells@[old(self).cell_index(pos.0 as int, pos.1 as int)].answer,
            r is None ==> *final(self) == *old(self),
            r matches Some(v) ==> old(self).remove_answer_cleared(*final(self), pos, v),
    {
        let side = self.setting.side_size();
        proof {
            let sdi = side as int;
            assert((pos.1 as int) * sdi + (pos.0 as int) < sdi * sdi) by (nonlinear_arith)
                requires 0 <= (pos.1 as int) < sdi, 0 <= (pos.0 as int) < sdi;
            assert(sdi * sdi <= 65025) by (nonlinear_arith)
                requires 0 <= sdi <= 255;
        }
        let i: usize = pos.1 as usize * side as usize + pos.0 as usize;
        if self.cells[i].answer().is_none() {
            return None;
        }
        let ghost pre = *self;
        let removed = self.cells[i].remove_answer();
        let v = match removed {
            Some(v) => v,
            None => {
                proof {
                    assert(false);
                }
                0
            },
        };
        proof {
            crate::normal_game::lemma_count_answered_update(
                pre.cells@,
                i as int,
                self.cells@[i as int],
            );
            crate::normal_game::lemma_count_answered_bounds(self.cells@);
        }
        let kr: usize = pos.1 as usize;
        let kc: usize = side as usize + pos.0 as usize;
        let bh = self.setting.block_height();
        let bw = self.setting.block_width();
        proof {
            lemma_unit_groups_in_range(&pre, pos);
        }
        let kb: usize = 2 * side as usize + (pos.1 / bh) as usize * bh as usize + (pos.0
            / bw) as usize;
        proof {
            lemma_group_membership(&pre, pos, i as int);
            assert(kr == pre.row_group_of(pos));
            assert(kc == pre.col_group_of(pos));
            assert(kb == pre.block_group_of(pos));
            lemma_groups_sane(&pre, kr as int);
            lemma_groups_sane(&pre, kc as int);
            lemma_groups_sane(&pre, kb as int);
        }
        let ghost s1 = *self;
        self.groups[kr].restore_answer_candidate(&self.cells, v);
        self.groups[kc].restore_answer_candidate(&self.cells, v);
        self.groups[kb].restore_answer_candidate(&self.cells, v);
        let ghost s2 = *self;
        // every cell of the three groups, by arena index
        let mut memb: Vec<usize> = Vec::new();
        push_members(&mut memb, &self.groups[kr]);
        push_members(&mut memb, &self.groups[kc]);
        push_members(&mut memb, &self.groups[kb]);
        proof {
            assert(memb@ =~= s2.groups@[kr as int].cells@ + s2.groups@[kc as int].cells@
                + s2.groups@[kb as int].cells@);
        }
        // recompute the candidates of every open cell of those groups
        let mut q: usize = 0;
        while q < memb.len()
            invariant
                0 <= q <= memb@.len(),
                pre.wf(),
                self.setting == s2.setting,
                s2.setting == pre.setting,
                self.setting.wf(),
                self.groups@ == s2.groups@,
                self.answered_count == s2.answered_count,
                1 <= self.answered_count,
                self.cells@.len() == s2.cells@.len(),
                s2.cells@.len() == pre.cells@.len(),
                self.groups@.len() == 3 * self.side(),
                forall|j: int|
                    0 <= j < s2.cells@.len() ==> (#[trigger] s2.cells@[j]).pos
                        == pre.cells@[j].pos,
                forall|m: int| 0 <= m < memb@.len() ==> #[trigger] memb@[m] < s2.cells@.len(),
                forall|j: int|
                    0 <= j < self.cells@.len() ==> (#[trigger] self.cells@[j]).pos
                        == s2.cells@[j].pos && self.cells@[j].answer == s2.cells@[j].answer,
                forall|j: int|
                    0 <= j < self.cells@.len() ==> (#[trigger] self.cells@[j]).answer_candidate@
                        == if s2.cells@[j].answer is None && (exists|q2: int|
                        0 <= q2 < q && #[trigger] memb@[q2] == j) {
                        s2.recomputed_candidates(s2.cells@[j].pos)
                    } else {
                        s2.cells@[j].answer_candidate@
                    },
            decreases memb@.len() - q,
        {
            let m = memb[q];
            if self.cells[m].answer().is_none() {
                let p = self.cells[m].pos();
                proof {
                    assert(self.cells@[m as int].pos == s2.cells@[m as int].pos);
                    assert(self.pos_in_range(p)) by {
                        assert(s2.cells@[m as int].pos == pre.cells@[m as int].pos);
                        assert(pre.wf());
                        let sdi = self.side();
                        let mi = m as int;
                        assert(1 <= sdi) by (nonlinear_arith)
                            requires
                                1 <= self.setting.block_size.height,
                                1 <= self.setting.block_size.width,
                                sdi == self.setting.block_size.height
                                    * self.setting.block_size.width,
                        ;
                        assert(pre.cells@.len() == sdi * sdi);
                        assert(0 <= mi % sdi < sdi) by (nonlinear_arith)
                            requires 1 <= sdi, 0 <= mi;
                        assert(0 <= mi / sdi < sdi) by (nonlinear_arith)
                            requires 1 <= sdi, 0 <= mi < sdi * sdi;
                    }
                    lemma_unit_groups_in_range(self, p);
                }
                let gs = self.find_groups(p);
                let inter = self.find_answer_candidate_that_all_groups_hold(&gs);
                self.cells[m].restore_answer_candidate(&inter);
                proof {
                    assert(self.cells@[m as int].answer_candidate@ == s2.recomputed_candidates(
                        s2.cells@[m as int].pos,
                    ));
                }
            }
            q = q + 1;
        }
        self.answered_count = self.answered_count - 1;
        proof {
            let f = *self;
            let ii = i as int;
            let n = pre.cells@.len() as int;
            crate::normal_game::lemma_count_answered_congruence(s2.cells@, f.cells@);
            // membership in the flat list is exactly sharing a unit
            assert forall|j: int| 0 <= j < n implies ((exists|q2: int|
                0 <= q2 < memb@.len() && #[trigger] memb@[q2] == j) <==> pre.same_unit(
                pos,
                pre.cells@[j].pos,
            )) by {
                lemma_group_membership(&pre, pos, j);
                let grs = s2.groups@[kr as int].cells@;
                let gcs = s2.groups@[kc as int].cells@;
                let gbs = s2.groups@[kb as int].cells@;
                assert(memb@ == grs + gcs + gbs);
                if exists|q2: int| 0 <= q2 < memb@.len() && #[trigger] memb@[q2] == j {
                    let q2 = choose|q2: int| 0 <= q2 < memb@.len() && #[trigger] memb@[q2] == j;
                    if q2 < grs.len() {
                        assert(grs[q2] == j);
                        assert(pre.groups@[kr as int].is_member(j));
                    } else if q2 < grs.len() + gcs.len() {
                        assert(gcs[q2 - grs.len()] == j);
                        assert(pre.groups@[kc as int].is_member(j));
                    } else {
                        assert(gbs[q2 - grs.len() - gcs.len()] == j);
                        assert(pre.groups@[kb as int].is_member(j));
                    }
                } else {
                    if pre.same_unit(pos, pre.cells@[j].pos) {
                        if pre.groups@[kr as int].is_member(j) {
                            let a = choose|a: int|
                                0 <= a < grs.len() && #[trigger] grs[a] == j;
                            assert(memb@[a] == j);
                        } else if pre.groups@[kc as int].is_member(j) {
                            let a = choose|a: int|
                                0 <= a < gcs.len() && #[trigger] gcs[a] == j;
                            assert(memb@[grs.len() + a] == j);
                        } else {
                            assert(pre.groups@[kb as int].is_member(j));
                            let a = choose|a: int|
                                0 <= a < gbs.len() && #[trigger] gbs[a] == j;
                            assert(memb@[grs.len() + gcs.len() + a] == j);
                        }
                    }
                }
            }
            assert(pre.remove_answer_cleared(f, pos, v)) by {
                assert(f.cells@.len() == n);
                assert(f.groups@.len() == pre.groups@.len());
                assert(ii == pre.cell_index(pos.0 as int, pos.1 as int));
                assert(f.cells@[ii].answer is None);
                assert forall|k: int| 0 <= k < f.groups@.len() implies (#[trigger] f.groups@[k]).answer_candidate@
                    == if pre.is_group_of(pos, k) {
                    if !pre.groups@[k].some_member_answers(f.cells@, v)
                        && !pre.groups@[k].answer_candidate@.contains(v) {
                        pre.groups@[k].answer_candidate@.push(v)
                    } else {
                        pre.groups@[k].answer_candidate@
                    }
                } else {
                    pre.groups@[k].answer_candidate@
                } by {}
                assert forall|j: int| 0 <= j < n implies (#[trigger] f.cells@[j]).answer_candidate@
                    == if f.cells@[j].answer is None && pre.same_unit(pos, pre.cells@[j].pos) {
                    f.recomputed_candidates(pre.cells@[j].pos)
                } else {
                    pre.cells@[j].answer_candidate@
                } by {}
            }
            // well-formedness
            assert forall|j: int| 0 <= j < n implies (#[trigger] f.cells@[j]).wf(f.side()) by {
                assert(pre.cells@[j].wf(pre.side()));
                if f.cells@[j].answer is None && pre.same_unit(pos, pre.cells@[j].pos) {
                    lemma_inter3_props(
                        f.groups@[f.row_group_of(pre.cells@[j].pos)].answer_candidate@,
                        f.groups@[f.col_group_of(pre.cells@[j].pos)].answer_candidate@,
                        f.groups@[f.block_group_of(pre.cells@[j].pos)].answer_candidate@,
                        f.side(),
                    );
                }
            }
            assert forall|k: int| 0 <= k < f.groups@.len() implies (#[trigger] f.groups@[k]).wf_candidates(
                f.side(),
            ) by {
                assert(pre.groups@[k].wf_candidates(pre.side()));
                if pre.is_group_of(pos, k) && !pre.groups@[k].some_member_answers(f.cells@, v)
                    && !pre.groups@[k].answer_candidate@.contains(v) {
                    let fc = f.groups@[k].answer_candidate@;
                    assert(fc == pre.groups@[k].answer_candidate@.push(v));
                    assert(1 <= v <= f.side());
                    assert forall|i1: int, i2: int| 0 <= i1 < i2 < fc.len() implies fc[i1]
                        != fc[i2] by {
                        if i2 == fc.len() - 1 {
                            assert(fc[i2] == v);
                            if fc[i1] == v {
                                assert(pre.groups@[k].answer_candidate@[i1] == v);
                                assert(pre.groups@[k].answer_candidate@.contains(v));
                            }
                        }
                    }
                }
            }
            assert(f.wf());
        }
        Some(v)
    }
}

/// Filling an open cell and then immediately clearing the same position
/// leaves the cell with no answer, and its candidates are exactly the
/// symbols simultaneously remaining unconfirmed in its row, its column
/// and its block.
pub proof fn lemma_assign_then_unassign(
    g0: NormalGame,
    g1: NormalGame,
    g2: NormalGame,
    pos: Position,
    v: u8,
)
    requires
        g0.wf(),
        g0.pos_in_range(pos),
        g0.cells@[g0.cell_index(pos.0 as int, pos.1 as int)].answer is None,
        g0.set_answer_filled(g1, pos, v),
        g1.setting == g0.setting,
        g1.remove_answer_cleared(g2, pos, v),
    ensures
        g2.cells@[g0.cell_index(pos.0 as int, pos.1 as int)].answer is None,
        g2.cells@[g0.cell_index(pos.0 as int, pos.1 as int)].answer_candidate@
            == g2.recomputed_candidates(pos),
{
    let s = g0.side();
    let i = g0.cell_index(pos.0 as int, pos.1 as int);
    assert(0 <= i < s * s) by (nonlinear_arith)
        requires
            0 <= (pos.0 as int) < s,
            0 <= (pos.1 as int) < s,
            i == pos.1 * s + pos.0,
    ;
    vstd::arithmetic::div_mod::lemma_fundamental_div_mod_converse(i, s, pos.1 as int, pos.0 as int);
    assert(g0.cells@[i].pos == pos);
    assert(g1.cells@[i].pos == pos);
    assert(g1.cell_index(pos.0 as int, pos.1 as int) == i);
    assert(g2.cells@[i].answer is None);
    assert(g1.same_unit(pos, pos));
    assert(g2.cells@[i].answer_candidate@ == g2.recomputed_candidates(pos));
}

/// Appends every member index of `g` to `memb`.
fn push_members(memb: &mut Vec<usize>, g: &group::Group)
    ensures
        final(memb)@ == old(memb)@ + g.cells@,
{
    let ghost memb0 = memb@;
    let mut j: usize = 0;
    while j < g.cells.len()
        invariant
            0 <= j <= g.cells@.len(),
            memb@ == memb0 + g.cells@.subrange(0, j as int),
        decreases g.cells@.len() - j,
    {
        memb.push(g.cells[j]);
        proof {
            assert(g.cells@.subrange(0, j as int + 1) =~= g.cells@.subrange(0, j as int).push(
                g.cells@[j as int],
            ));
        }
        j = j + 1;
    }
    proof {
        assert(g.cells@.subrange(0, g.cells@.len() as int) =~= g.cells@);
    }
}

} // verus!
