//! The solving algorithm: the two propagation rules are applied to a
//! fixed point, and when they stall the search guesses the cell with the
//! fewest candidates, trying each candidate on an independent copy.
use vstd::prelude::*;

verus! {

use crate::normal_game::answers_extend;
use crate::normal_game::cell::Position;
use crate::normal_game::count_answered;
use crate::normal_game::group;
use crate::normal_game::lemma_answers_extend_trans;
use crate::normal_game::lemma_count_answered_bounds;
use crate::normal_game::lemma_count_answered_full;
use crate::normal_game::lemma_duplicate_extends;
use crate::normal_game::lemma_groups_sane;
use crate::normal_game::lemma_set_answer_sound;
use crate::normal_game::shuffle::lemma_conflict_iff_duplicate;
use crate::normal_game::lemma_wf_groups_equal;
use crate::normal_game::lemma_wf_positions;
use crate::normal_game::GameState;
use crate::normal_game::NormalGame;

/// A propagation or search step changes nothing but answers, candidates
/// and remaining lists: the configuration and the group structure stay.
pub open spec fn step_extends(pre: NormalGame, post: NormalGame) -> bool {
    &&& answers_extend(pre, post)
    &&& post.setting == pre.setting
    &&& forall|k: int|
        0 <= k < post.groups@.len() ==> (#[trigger] post.groups@[k]).cells@
            == pre.groups@[k].cells@
}

/// Both games give every cell the same answer.
pub open spec fn answers_eq(a: NormalGame, b: NormalGame) -> bool {
    &&& b.setting.eq_view(&a.setting)
    &&& b.cells@.len() == a.cells@.len()
    &&& b.groups@.len() == a.groups@.len()
    &&& forall|j: int| 0 <= j < b.cells@.len() ==> (#[trigger] b.cells@[j]).pos == a.cells@[j].pos
    &&& forall|j: int|
        0 <= j < b.cells@.len() ==> (#[trigger] b.cells@[j]).answer == a.cells@[j].answer
    &&& b.answered_count == a.answered_count
}

impl NormalGame {
    /// No open cell is down to exactly one candidate.
    pub open spec fn no_naked_single(&self) -> bool {
        forall|i: int|
            0 <= i < self.cells@.len() ==> !((#[trigger] self.cells@[i]).answer is None
                && self.cells@[i].answer_candidate@.len() == 1)
    }

    /// No group holds a remaining symbol carried by exactly one member.
    pub open spec fn no_hidden_single_anywhere(&self) -> bool {
        forall|k: int|
            0 <= k < self.groups@.len() ==> (#[trigger] self.groups@[k]).no_hidden_single(
                self.cells@,
            )
    }

    /// Neither propagation rule can make a move.
    pub open spec fn propagation_stable(&self) -> bool {
        self.no_naked_single() && self.no_hidden_single_anywhere()
    }
}

/// `e` stands somewhere in some group's lonely list of `g`.
pub open spec fn from_some_lonely(g: NormalGame, e: (Position, u8)) -> bool {
    exists|k: int, q: int|
        #![trigger g.groups@[k].lonelies(g.cells@)[q]]
        0 <= k < g.groups@.len() && 0 <= q < g.groups@[k].lonelies(g.cells@).len()
            && g.groups@[k].lonelies(g.cells@)[q] == e
}

/// A fresh complete grid stays complete when its answers are replayed
/// onto a new arena.
proof fn lemma_replay_complete(orig: &NormalGame, c: &NormalGame)
    requires
        orig.wf(),
        c.wf(),
        orig.status_spec() == GameState::Complete,
        answers_eq(*orig, *c),
        forall|k: int, x: u8|
            0 <= k < c.groups@.len() && #[trigger] c.groups@[k].answer_candidate@.contains(x)
                ==> !c.groups@[k].some_member_answers(c.cells@, x),
    ensures
        c.status_spec() == GameState::Complete,
{
    let s = orig.side();
    assert(orig.answered_count == s * s);
    lemma_count_answered_full(c.cells@);
    assert(!c.exists_empty_unanswered());
    lemma_wf_groups_equal(orig, c);
    assert(!c.exists_duplicate()) by {
        if c.exists_duplicate() {
            assert forall|k: int| 0 <= k < c.groups@.len() implies (
            #[trigger] c.groups@[k]).members_bound(c.cells@.len() as int) by {
                lemma_groups_sane(c, k);
            }
            lemma_duplicate_extends(c, orig);
        }
    }
    assert(c.all_groups_clear()) by {
        assert forall|k: int| 0 <= k < c.groups@.len() implies (
        #[trigger] c.groups@[k]).answer_candidate@.len() == 0 by {
            lemma_groups_sane(c, k);
            let g = c.groups@[k];
            if g.answer_candidate@.len() != 0 {
                let v = g.answer_candidate@[0];
                assert(g.answer_candidate@.contains(v));
                assert(!g.some_member_answers(c.cells@, v));
                let vals = Seq::new(g.cells@.len(), |j: int| c.cells@[g.cells@[j] as int].answer->0);
                assert(crate::normal_game::setting::distinct_seq(vals)) by {
                    assert forall|j1: int, j2: int| 0 <= j1 < j2 < vals.len() implies vals[j1]
                        != vals[j2] by {
                        assert(c.cells@[g.cells@[j1] as int].answer is Some);
                        assert(c.cells@[g.cells@[j2] as int].answer is Some);
                        if vals[j1] == vals[j2] {
                            assert(g.has_duplicate_answer(c.cells@));
                        }
                    }
                }
                assert forall|q: int| 0 <= q < vals.len() implies 1 <= #[trigger] vals[q]
                    <= c.side() by {
                    assert(c.cells@[g.cells@[q] as int].wf(c.side()));
                    assert(c.cells@[g.cells@[q] as int].answer is Some);
                }
                assert(1 <= v <= c.side());
                assert(vals.len() == c.side());
                crate::normal_game::setting::lemma_distinct_covers(vals, c.side(), v);
                let q = choose|q: int| 0 <= q < vals.len() && vals[q] == v;
                assert(c.cells@[g.cells@[q] as int].answer == Some(v));
                assert(g.some_member_answers(c.cells@, v));
            }
        }
    }
    assert(c.answered_count == s * s);
    assert(c.side() == s);
}

/// `c` completes `g`: it is well formed, its state is Complete, and it
/// keeps every answer `g` already has.
pub open spec fn is_solution_of(c: NormalGame, g: NormalGame) -> bool {
    c.wf() && c.status_spec() == GameState::Complete && answers_extend(g, c)
}

/// In a grid whose lists are sound, a completion's value for an open cell
/// is still among that cell's candidates: propagation has not pruned it.
proof fn lemma_solution_in_candidates(g: &NormalGame, c: &NormalGame, i: int)
    requires
        g.wf(),
        g.candidates_complete(),
        is_solution_of(*c, *g),
        0 <= i < g.cells@.len(),
        g.cells@[i].answer is None,
    ensures
        c.cells@[i].answer is Some,
        1 <= c.cells@[i].answer->0 <= g.side(),
        g.cells@[i].answer_candidate@.contains(c.cells@[i].answer->0),
{
    let sd = g.side();
    assert(c.side() == sd);
    assert(c.answered_count == c.side() * c.side());
    lemma_count_answered_full(c.cells@);
    assert(c.cells@[i].answer is Some);
    let cv = c.cells@[i].answer->0;
    assert(1 <= cv <= sd) by {
        assert(c.cells@[i].wf(c.side()));
    }
    lemma_conflict_iff_duplicate(c);
    assert(c.no_conflict());
    lemma_wf_positions(c);
    assert(g.symbol_allowed(i, cv)) by {
        assert forall|j: int|
            0 <= j < g.cells@.len() && j != i && g.same_unit(g.cells@[i].pos, g.cells@[j].pos)
            implies (#[trigger] g.cells@[j]).answer != Some(cv) by {
            if g.cells@[j].answer == Some(cv) {
                assert(c.cells@[j].answer == Some(cv));
                let pi = c.cells@[i].pos;
                let pj = c.cells@[j].pos;
                vstd::arithmetic::div_mod::lemma_fundamental_div_mod(i, sd);
                vstd::arithmetic::div_mod::lemma_fundamental_div_mod(j, sd);
                assert(pi != pj);
                assert(c.same_unit(pi, pj));
                assert(c.answer_at(pi.0 as int, pi.1 as int) == c.cells@[i].answer) by {
                    assert(c.cell_index(pi.0 as int, pi.1 as int) == i) by (nonlinear_arith)
                        requires
                            pi.0 == i % sd,
                            pi.1 == i / sd,
                            i == sd * (i / sd) + i % sd,
                            c.cell_index(pi.0 as int, pi.1 as int) == pi.1 * sd + pi.0,
                    ;
                }
                assert(c.answer_at(pj.0 as int, pj.1 as int) == c.cells@[j].answer) by {
                    assert(c.cell_index(pj.0 as int, pj.1 as int) == j) by (nonlinear_arith)
                        requires
                            pj.0 == j % sd,
                            pj.1 == j / sd,
                            j == sd * (j / sd) + j % sd,
                            c.cell_index(pj.0 as int, pj.1 as int) == pj.1 * sd + pj.0,
                    ;
                }
            }
        }
    }
    assert(g.cells@[i].answer_candidate@.contains(cv));
}

/// In a group whose members are all answered without repetition, every
/// symbol is some member's answer.
proof fn lemma_group_answers_cover(g: &NormalGame, k: int, v: u8)
    requires
        g.wf(),
        0 <= k < g.groups@.len(),
        g.is_fully_answered(),
        !g.groups@[k].has_duplicate_answer(g.cells@),
        1 <= v <= g.side(),
    ensures
        g.groups@[k].some_member_answers(g.cells@, v),
{
    lemma_groups_sane(g, k);
    let gr = g.groups@[k];
    let vals = Seq::new(gr.cells@.len(), |j: int| g.cells@[gr.cells@[j] as int].answer->0);
    assert(crate::normal_game::setting::distinct_seq(vals)) by {
        assert forall|j1: int, j2: int| 0 <= j1 < j2 < vals.len() implies vals[j1] != vals[j2] by {
            assert(g.cells@[gr.cells@[j1] as int].answer is Some);
            assert(g.cells@[gr.cells@[j2] as int].answer is Some);
            if vals[j1] == vals[j2] {
                assert(gr.has_duplicate_answer(g.cells@));
            }
        }
    }
    assert forall|q: int| 0 <= q < vals.len() implies 1 <= #[trigger] vals[q] <= g.side() by {
        assert(g.cells@[gr.cells@[q] as int].wf(g.side()));
        assert(g.cells@[gr.cells@[q] as int].answer is Some);
    }
    assert(vals.len() == g.side());
    crate::normal_game::setting::lemma_distinct_covers(vals, g.side(), v);
    let q = choose|q: int| 0 <= q < vals.len() && vals[q] == v;
    assert(g.cells@[gr.cells@[q] as int].answer == Some(v));
}

/// A hidden single agrees with every completion: the symbol of a lonely
/// entry is what any completion puts at the entry's cell.
proof fn lemma_lonely_entry_solution(g: &NormalGame, c: &NormalGame, k: int, e: (Position, u8))
    requires
        g.wf(),
        g.sound(),
        is_solution_of(*c, *g),
        0 <= k < g.groups@.len(),
        g.groups@[k].entry_witnessed(g.cells@, e),
        g.groups@[k].answer_candidate@.contains(e.1),
        g.groups@[k].holder_count(g.cells@, e.1) == 1,
    ensures
        0 <= g.cell_index(e.0.0 as int, e.0.1 as int) < g.cells@.len(),
        g.cells@[g.cell_index(e.0.0 as int, e.0.1 as int)].answer is None,
        c.cells@[g.cell_index(e.0.0 as int, e.0.1 as int)].answer == Some(e.1),
{
    let sd = g.side();
    let gr = g.groups@[k];
    lemma_groups_sane(g, k);
    let m_w = choose|m: int|
        0 <= m < gr.cells@.len() && g.cells@[#[trigger] gr.cells@[m] as int].pos == e.0
            && g.cells@[gr.cells@[m] as int].answer_candidate@.contains(e.1);
    let iw = gr.cells@[m_w] as int;
    assert(g.cells@[iw].answer is None) by {
        assert(g.cells@[iw].wf(sd));
        assert(g.cells@[iw].answer_candidate@.len() > 0) by {
            assert(g.cells@[iw].answer_candidate@.contains(e.1));
        }
    }
    assert(g.cell_index(e.0.0 as int, e.0.1 as int) == iw) by {
        vstd::arithmetic::div_mod::lemma_fundamental_div_mod(iw, sd);
        assert(g.cell_index(e.0.0 as int, e.0.1 as int) == iw) by (nonlinear_arith)
            requires
                e.0.0 == iw % sd,
                e.0.1 == iw / sd,
                iw == sd * (iw / sd) + iw % sd,
                g.cell_index(e.0.0 as int, e.0.1 as int) == e.0.1 * sd + e.0.0,
        ;
    }
    assert(1 <= e.1 <= sd) by {
        let ci = choose|ci: int|
            0 <= ci < gr.answer_candidate@.len() && gr.answer_candidate@[ci] == e.1;
        assert(gr.wf_candidates(sd));
    }
    // the completion puts e.1 on some member of the group
    assert(c.answered_count == c.side() * c.side());
    lemma_count_answered_full(c.cells@);
    lemma_wf_groups_equal(g, c);
    assert(!c.groups@[k].has_duplicate_answer(c.cells@));
    assert(c.is_fully_answered());
    lemma_group_answers_cover(c, k, e.1);
    let m_c = choose|m: int|
        0 <= m < c.groups@[k].cells@.len()
            && c.cells@[#[trigger] c.groups@[k].cells@[m] as int].answer == Some(e.1);
    let ic = gr.cells@[m_c] as int;
    assert(c.cells@[ic].answer == Some(e.1));
    // that member is still open here, else the symbol would be confirmed
    assert(g.cells@[ic].answer is None) by {
        if g.cells@[ic].answer is Some {
            assert(c.cells@[ic].answer == g.cells@[ic].answer);
            assert(gr.some_member_answers(g.cells@, e.1)) by {
                assert(g.cells@[gr.cells@[m_c] as int].answer == Some(e.1));
            }
        }
    }
    lemma_solution_in_candidates(g, c, ic);
    assert(g.cells@[ic].answer_candidate@.contains(e.1));
    // and so it is a holder; the holder is unique
    if m_w != m_c {
        if m_w < m_c {
            group::lemma_two_holders(&gr, g.cells@, e.1, m_w, m_c);
        } else {
            group::lemma_two_holders(&gr, g.cells@, e.1, m_c, m_w);
        }
        assert(false);
    }
    assert(c.cells@[iw].answer == Some(e.1));
}

/// A grid with sound lists and a completion is never in the Failure
/// state.
proof fn lemma_solution_no_failure(g: &NormalGame, c: &NormalGame)
    requires
        g.wf(),
        g.sound(),
        is_solution_of(*c, *g),
    ensures
        g.status_spec() != GameState::Failure,
{
    if g.exists_empty_unanswered() {
        let i = choose|i: int|
            0 <= i < g.cells@.len() && (#[trigger] g.cells@[i]).answer is None
                && g.cells@[i].answer_candidate@.len() == 0;
        lemma_solution_in_candidates(g, c, i);
        assert(false);
    }
    if g.exists_duplicate() {
        assert forall|k: int| 0 <= k < g.groups@.len() implies (
        #[trigger] g.groups@[k]).members_bound(g.cells@.len() as int) by {
            lemma_groups_sane(g, k);
        }
        lemma_wf_groups_equal(g, c);
        lemma_duplicate_extends(g, c);
        assert(false);
    }
    if g.answered_count == g.side() * g.side() && !g.all_groups_clear() {
        let k = choose|k: int|
            0 <= k < g.groups@.len() && (#[trigger] g.groups@[k]).answer_candidate@.len() != 0;
        let v = g.groups@[k].answer_candidate@[0];
        assert(g.groups@[k].answer_candidate@.contains(v));
        assert(!g.groups@[k].some_member_answers(g.cells@, v));
        lemma_count_answered_full(g.cells@);
        assert(g.is_fully_answered());
        assert(1 <= v <= g.side()) by {
            assert(g.groups@[k].wf_candidates(g.side()));
        }
        lemma_group_answers_cover(g, k, v);
        assert(false);
    }
}

/// A fully answered grid without repeated answers whose remaining lists
/// hold only unconfirmed symbols is in the Complete state.
pub proof fn lemma_filled_nodup_complete(g: &NormalGame)
    requires
        g.wf(),
        g.is_fully_answered(),
        !g.exists_duplicate(),
        g.unconfirmed_only(),
    ensures
        g.status_spec() == GameState::Complete,
{
    crate::normal_game::lemma_count_answered_all(g.cells@);
    assert(g.answered_count == g.side() * g.side());
    assert(!g.exists_empty_unanswered());
    assert(g.all_groups_clear()) by {
        assert forall|k: int| 0 <= k < g.groups@.len() implies (
        #[trigger] g.groups@[k]).answer_candidate@.len() == 0 by {
            if g.groups@[k].answer_candidate@.len() != 0 {
                let v = g.groups@[k].answer_candidate@[0];
                assert(g.groups@[k].answer_candidate@.contains(v));
                assert(!g.groups@[k].some_member_answers(g.cells@, v));
                assert(1 <= v <= g.side()) by {
                    assert(g.groups@[k].wf_candidates(g.side()));
                }
                lemma_group_answers_cover(g, k, v);
            }
        }
    }
}

pub struct Solver {
    pub game: NormalGame,
}

impl Solver {
    pub fn new(game: &NormalGame) -> (r: Solver)
        requires
            game.wf(),
        ensures
            r.game.wf(),
            answers_eq(*game, r.game),
    {
        Solver { game: game.clone() }
    }

    /// Forward to the grid's own assignment.
    pub fn set_answer(game: &mut NormalGame, pos: Position, answer: u8)
        requires
            old(game).wf(),
            old(game).pos_in_range(pos),
            1 <= answer <= old(game).side(),
        ensures
            final(game).wf(),
            final(game).setting == old(game).setting,
            old(game).cells@[old(game).cell_index(pos.0 as int, pos.1 as int)].answer is Some
                ==> *final(game) == *old(game),
            old(game).cells@[old(game).cell_index(pos.0 as int, pos.1 as int)].answer is None
                ==> old(game).set_answer_filled(*final(game), pos, answer),
    {
        game.set_answer(pos, answer);
    }

    /// Rule one: confirm every open cell whose candidate list is down to
    /// a single symbol.  When the answered count does not move, the pass
    /// changed nothing and no such cell existed.
    pub fn fill_lonely_in_cell(game: &mut NormalGame)
        requires
            old(game).wf(),
        ensures
            final(game).wf(),
            step_extends(*old(game), *final(game)),
            old(game).sound() ==> final(game).sound(),
            old(game).no_naked_single() ==> *final(game) == *old(game),
            final(game).answered_count == old(game).answered_count ==> *final(game) == *old(game)
                && old(game).no_naked_single(),
            forall|j: int|
                0 <= j < old(game).cells@.len() && (#[trigger] old(game).cells@[j]).answer is None
                    && old(game).cells@[j].answer_candidate@.len() == 1
                    ==> final(game).cells@[j].answer == Some(
                    old(game).cells@[j].answer_candidate@[0],
                ),
            forall|j: int|
                0 <= j < old(game).cells@.len() && (#[trigger] old(game).cells@[j]).answer is None
                    && (#[trigger] final(game).cells@[j]).answer is Some
                    ==> old(game).cells@[j].answer_candidate@.len() == 1
                    && final(game).cells@[j].answer == Some(
                    old(game).cells@[j].answer_candidate@[0],
                ),
    {
        let ghost pre = *game;
        let mut list: Vec<(Position, u8)> = Vec::new();
        let mut i: usize = 0;
        while i < game.cells.len()
            invariant
                *game == pre,
                pre.wf(),
                0 <= i <= pre.cells@.len(),
                forall|q: int|
                    0 <= q < list@.len() ==> {
                        let e = #[trigger] list@[q];
                        &&& pre.pos_in_range(e.0)
                        &&& pre.cell_index(e.0.0 as int, e.0.1 as int) < i
                        &&& pre.cells@[pre.cell_index(e.0.0 as int, e.0.1 as int)].answer is None
                        &&& pre.cells@[pre.cell_index(
                            e.0.0 as int,
                            e.0.1 as int,
                        )].answer_candidate@ =~= seq![e.1]
                        &&& 1 <= e.1 <= pre.side()
                    },
                forall|q1: int, q2: int|
                    0 <= q1 < q2 < list@.len() ==> pre.cell_index(
                        (#[trigger] list@[q1]).0.0 as int,
                        list@[q1].0.1 as int,
                    ) < pre.cell_index((#[trigger] list@[q2]).0.0 as int, list@[q2].0.1 as int),
                forall|j: int|
                    0 <= j < i && (#[trigger] pre.cells@[j]).answer is None
                        && pre.cells@[j].answer_candidate@.len() == 1 ==> exists|q: int|
                        0 <= q < list@.len() && pre.cell_index(
                            (#[trigger] list@[q]).0.0 as int,
                            list@[q].0.1 as int,
                        ) == j && list@[q].1 == pre.cells@[j].answer_candidate@[0],
            decreases pre.cells@.len() - i,
        {
            let ghost list0 = list@;
            match game.cells[i].get_lonely() {
                Some(v) => {
                    let p = game.cells[i].pos();
                    proof {
                        let s = pre.side();
                        let ji = i as int;
                        vstd::arithmetic::div_mod::lemma_mod_bound(ji, s);
                        assert(0 <= ji / s < s) by (nonlinear_arith)
                            requires 0 <= ji < s * s, 1 <= s;
                        vstd::arithmetic::div_mod::lemma_fundamental_div_mod(ji, s);
                        assert(pre.cell_index(p.0 as int, p.1 as int) == ji) by (nonlinear_arith)
                            requires
                                p.0 == ji % s,
                                p.1 == ji / s,
                                ji == s * (ji / s) + ji % s,
                                pre.cell_index(p.0 as int, p.1 as int) == p.1 * s + p.0,
                        ;
                        assert(pre.cells@[ji].answer is None);
                        assert(pre.cells@[ji].answer_candidate@ =~= seq![v]);
                        assert(1 <= v <= pre.side()) by {
                            assert(pre.cells@[ji].answer_candidate@[0] == v);
                        }
                    }
                    list.push((p, v));
                },
                None => {},
            }
            proof {
                assert forall|j: int|
                    0 <= j < i + 1 && (#[trigger] pre.cells@[j]).answer is None
                        && pre.cells@[j].answer_candidate@.len() == 1 implies exists|q: int|
                    0 <= q < list@.len() && pre.cell_index(
                        (#[trigger] list@[q]).0.0 as int,
                        list@[q].0.1 as int,
                    ) == j && list@[q].1 == pre.cells@[j].answer_candidate@[0] by {
                    if j < i {
                        let q = choose|q: int|
                            0 <= q < list0.len() && pre.cell_index(
                                (#[trigger] list0[q]).0.0 as int,
                                list0[q].0.1 as int,
                            ) == j && list0[q].1 == pre.cells@[j].answer_candidate@[0];
                        assert(list@[q] == list0[q]);
                    } else {
                        assert(list@[list@.len() - 1].1 == pre.cells@[j].answer_candidate@[0]);
                    }
                }
            }
            i = i + 1;
        }
        let mut q: usize = 0;
        while q < list.len()
            invariant
                pre.wf(),
                game.wf(),
                0 <= q <= list@.len(),
                step_extends(pre, *game),
                pre.sound() ==> game.sound(),
                game.setting == pre.setting,
                forall|q2: int|
                    0 <= q2 < list@.len() ==> {
                        let e = #[trigger] list@[q2];
                        &&& pre.pos_in_range(e.0)
                        &&& 0 <= pre.cell_index(e.0.0 as int, e.0.1 as int) < pre.cells@.len()
                        &&& pre.cells@[pre.cell_index(e.0.0 as int, e.0.1 as int)].answer is None
                        &&& pre.cells@[pre.cell_index(
                            e.0.0 as int,
                            e.0.1 as int,
                        )].answer_candidate@ =~= seq![e.1]
                        &&& 1 <= e.1 <= pre.side()
                    },
                forall|j: int|
                    0 <= j < pre.cells@.len() && (#[trigger] pre.cells@[j]).answer is None
                        && pre.cells@[j].answer_candidate@.len() == 1 ==> exists|q2: int|
                        0 <= q2 < list@.len() && pre.cell_index(
                            (#[trigger] list@[q2]).0.0 as int,
                            list@[q2].0.1 as int,
                        ) == j && list@[q2].1 == pre.cells@[j].answer_candidate@[0],
                forall|q1: int, q2: int|
                    0 <= q1 < q2 < list@.len() ==> pre.cell_index(
                        (#[trigger] list@[q1]).0.0 as int,
                        list@[q1].0.1 as int,
                    ) < pre.cell_index((#[trigger] list@[q2]).0.0 as int, list@[q2].0.1 as int),
                forall|q2: int|
                    q <= q2 < list@.len() ==> game.cells@[pre.cell_index(
                        (#[trigger] list@[q2]).0.0 as int,
                        list@[q2].0.1 as int,
                    )].answer is None,
                forall|q2: int|
                    0 <= q2 < q ==> game.cells@[pre.cell_index(
                        (#[trigger] list@[q2]).0.0 as int,
                        list@[q2].0.1 as int,
                    )].answer == Some(list@[q2].1),
                forall|j: int|
                    0 <= j < pre.cells@.len() && (#[trigger] pre.cells@[j]).answer is None && (
                    #[trigger] game.cells@[j]).answer is Some ==> exists|q2: int|
                        0 <= q2 < q && pre.cell_index(
                            (#[trigger] list@[q2]).0.0 as int,
                            list@[q2].0.1 as int,
                        ) == j,
                game.answered_count == pre.answered_count ==> *game == pre && q == 0,
                q == 0 ==> *game == pre,
            decreases list@.len() - q,
        {
            let (p, v) = list[q];
            let ghost before = *game;
            proof {
                assert(game.pos_in_range(p));
                assert(game.side() == pre.side());
            }
            game.set_answer(p, v);
            proof {
                let ii = pre.cell_index(p.0 as int, p.1 as int);
                let s = pre.side();
                assert(before.cells@[ii].answer is None);
                assert(before.set_answer_filled(*game, p, v));
                assert(game.answered_count == before.answered_count + 1);
                if pre.sound() {
                    lemma_set_answer_sound(&before, game, p, v);
                }
                assert forall|q2: int| q + 1 <= q2 < list@.len() implies game.cells@[pre.cell_index(
                    (#[trigger] list@[q2]).0.0 as int,
                    list@[q2].0.1 as int,
                )].answer is None by {
                    let jj = pre.cell_index(list@[q2].0.0 as int, list@[q2].0.1 as int);
                    assert(ii < jj);
                }
                if game.answered_count == pre.answered_count {
                    assert(before.answered_count <= game.answered_count);
                    assert(false);
                }
            }
            q = q + 1;
        }
        proof {
            if game.answered_count == pre.answered_count {
                assert(*game == pre && q == 0);
                assert(list@.len() == 0);
            }
            assert forall|j: int|
                0 <= j < pre.cells@.len() && (#[trigger] pre.cells@[j]).answer is None
                    && pre.cells@[j].answer_candidate@.len() == 1 implies game.cells@[j].answer
                == Some(pre.cells@[j].answer_candidate@[0]) by {
                let q2 = choose|q2: int|
                    0 <= q2 < list@.len() && pre.cell_index(
                        (#[trigger] list@[q2]).0.0 as int,
                        list@[q2].0.1 as int,
                    ) == j && list@[q2].1 == pre.cells@[j].answer_candidate@[0];
                assert(game.cells@[j].answer == Some(list@[q2].1));
            }
            assert forall|j: int|
                0 <= j < pre.cells@.len() && (#[trigger] pre.cells@[j]).answer is None && (
                #[trigger] game.cells@[j]).answer is Some implies pre.cells@[j].answer_candidate@.len()
                == 1 && game.cells@[j].answer == Some(pre.cells@[j].answer_candidate@[0]) by {
                let q2 = choose|q2: int|
                    0 <= q2 < q && pre.cell_index(
                        (#[trigger] list@[q2]).0.0 as int,
                        list@[q2].0.1 as int,
                    ) == j;
                assert(pre.cells@[j].answer_candidate@ =~= seq![list@[q2].1]);
                assert(game.cells@[j].answer == Some(list@[q2].1));
            }
            if pre.no_naked_single() {
                if list@.len() > 0 {
                    let e = list@[0];
                    let ii = pre.cell_index(e.0.0 as int, e.0.1 as int);
                    assert(pre.cells@[ii].answer is None && pre.cells@[ii].answer_candidate@.len()
                        == 1);
                    assert(false);
                }
                assert(*game == pre);
            }
        }
    }

    /// Rule two: for each group, confirm every symbol that only one
    /// member cell can still take.  When the answered count does not
    /// move, the pass changed nothing and no group had such a symbol.
    pub fn fill_lonely_in_group(game: &mut NormalGame)
        requires
            old(game).wf(),
        ensures
            final(game).wf(),
            step_extends(*old(game), *final(game)),
            old(game).sound() ==> final(game).sound(),
            old(game).no_hidden_single_anywhere() ==> *final(game) == *old(game),
            final(game).answered_count == old(game).answered_count ==> *final(game) == *old(game)
                && old(game).no_hidden_single_anywhere(),
            forall|k: int, q: int|
                0 <= k < old(game).groups@.len() && 0 <= q < (#[trigger] old(
                    game,
                ).groups@[k].lonelies(old(game).cells@)).len()
                    ==> (#[trigger] final(game).cells@[old(game).cell_index(
                    old(game).groups@[k].lonelies(old(game).cells@)[q].0.0 as int,
                    old(game).groups@[k].lonelies(old(game).cells@)[q].0.1 as int,
                )]).answer is Some,
            forall|j: int|
                0 <= j < old(game).cells@.len() && (#[trigger] old(game).cells@[j]).answer is None
                    && (#[trigger] final(game).cells@[j]).answer is Some ==> exists|k: int, q: int|
                    #![trigger old(game).groups@[k].lonelies(old(game).cells@)[q]]
                    0 <= k < old(game).groups@.len() && 0 <= q < old(game).groups@[k].lonelies(
                        old(game).cells@,
                    ).len() && old(game).groups@[k].lonelies(old(game).cells@)[q].0 == old(
                        game,
                    ).cells@[j].pos && final(game).cells@[j].answer == Some(
                        old(game).groups@[k].lonelies(old(game).cells@)[q].1,
                    ),
    {
        let ghost pre = *game;
        let mut list: Vec<(Position, u8)> = Vec::new();
        let mut k: usize = 0;
        while k < game.groups.len()
            invariant
                *game == pre,
                pre.wf(),
                0 <= k <= pre.groups@.len(),
                forall|q: int|
                    0 <= q < list@.len() ==> {
                        let e = #[trigger] list@[q];
                        &&& pre.pos_in_range(e.0)
                        &&& pre.cells@[pre.cell_index(e.0.0 as int, e.0.1 as int)].answer is None
                        &&& 1 <= e.1 <= pre.side()
                    },
                forall|q: int|
                    0 <= q < list@.len() ==> from_some_lonely(pre, #[trigger] list@[q]),
                forall|k2: int, q2: int|
                    0 <= k2 < k && 0 <= q2 < pre.groups@[k2].lonelies(pre.cells@).len()
                        ==> list@.contains(#[trigger] pre.groups@[k2].lonelies(pre.cells@)[q2]),
                pre.no_hidden_single_anywhere() ==> list@.len() == 0,
            decreases pre.groups@.len() - k,
        {
            proof {
                lemma_groups_sane(game, k as int);
                lemma_wf_positions(game);
            }
            let lon = {
                let g = &game.groups[k];
                g.get_lonely(&game.cells)
            };
            proof {
                let g = pre.groups@[k as int];
                group::lemma_lonelies_entries(&g, pre.cells@, g.answer_candidate@.len() as int);
                group::lemma_lonelies_empty(&g, pre.cells@, g.answer_candidate@.len() as int);
            }
            let ghost list0 = list@;
            let mut t: usize = 0;
            while t < lon.len()
                invariant
                    *game == pre,
                    pre.wf(),
                    0 <= t <= lon@.len(),
                    0 <= k < pre.groups@.len(),
                    lon@ == pre.groups@[k as int].lonelies(pre.cells@),
                    list@.len() == list0.len() + t,
                    forall|t2: int| 0 <= t2 < t ==> list@[list0.len() + t2] == lon@[t2],
                    forall|q2: int| 0 <= q2 < list0.len() ==> list@[q2] == list0[q2],
                    forall|q: int|
                        0 <= q < lon@.len() ==> pre.groups@[k as int].entry_witnessed(
                            pre.cells@,
                            #[trigger] lon@[q],
                        ) && pre.groups@[k as int].answer_candidate@.contains(lon@[q].1),
                    pre.groups@[k as int].members_bound(pre.cells@.len() as int),
                    forall|q: int|
                        0 <= q < list@.len() ==> {
                            let e = #[trigger] list@[q];
                            &&& pre.pos_in_range(e.0)
                            &&& pre.cells@[pre.cell_index(
                                e.0.0 as int,
                                e.0.1 as int,
                            )].answer is None
                            &&& 1 <= e.1 <= pre.side()
                        },
                    forall|q2: int|
                        0 <= q2 < list@.len() ==> from_some_lonely(pre, #[trigger] list@[q2]),
                    forall|k2: int, q2: int|
                        0 <= k2 < k && 0 <= q2 < pre.groups@[k2].lonelies(pre.cells@).len()
                            ==> list@.contains(#[trigger] pre.groups@[k2].lonelies(pre.cells@)[q2]),
                    pre.no_hidden_single_anywhere() ==> list@.len() == 0 && lon@.len() == 0,
                decreases lon@.len() - t,
            {
                let e = lon[t];
                proof {
                    lemma_wf_positions(&pre);
                    let g = pre.groups@[k as int];
                    assert(g.entry_witnessed(pre.cells@, e) && g.answer_candidate@.contains(e.1));
                    let m = choose|m: int|
                        0 <= m < g.cells@.len() && pre.cells@[#[trigger] g.cells@[m] as int].pos
                            == e.0 && pre.cells@[g.cells@[m] as int].answer_candidate@.contains(
                            e.1,
                        );
                    let mi = g.cells@[m] as int;
                    assert(pre.pos_in_range(pre.cells@[mi].pos));
                    assert(pre.cells@[mi].answer is None) by {
                        assert(pre.cells@[mi].wf(pre.side()));
                        assert(pre.cells@[mi].answer_candidate@.len() > 0) by {
                            assert(pre.cells@[mi].answer_candidate@.contains(e.1));
                        }
                    }
                    assert(1 <= e.1 <= pre.side()) by {
                        let ci = choose|ci: int|
                            0 <= ci < g.answer_candidate@.len() && g.answer_candidate@[ci] == e.1;
                        assert(g.wf_candidates(pre.side()));
                    }
                    // the entry's position addresses that very cell
                    let s = pre.side();
                    vstd::arithmetic::div_mod::lemma_fundamental_div_mod(mi, s);
                    assert(pre.cell_index(e.0.0 as int, e.0.1 as int) == mi) by (nonlinear_arith)
                        requires
                            e.0.0 == mi % s,
                            e.0.1 == mi / s,
                            mi == s * (mi / s) + mi % s,
                            pre.cell_index(e.0.0 as int, e.0.1 as int) == e.0.1 * s + e.0.0,
                    ;
                }
                let ghost lbefore = list@;
                proof {
                    assert(pre.groups@[k as int].lonelies(pre.cells@)[t as int] == e);
                    assert(from_some_lonely(pre, e));
                }
                list.push(e);
                proof {
                    assert forall|k2: int, q2: int|
                        0 <= k2 < k && 0 <= q2 < pre.groups@[k2].lonelies(pre.cells@).len()
                        implies list@.contains(
                        #[trigger] pre.groups@[k2].lonelies(pre.cells@)[q2],
                    ) by {
                        let e2 = pre.groups@[k2].lonelies(pre.cells@)[q2];
                        let q3 = choose|q3: int| 0 <= q3 < lbefore.len() && lbefore[q3] == e2;
                        assert(list@[q3] == e2);
                    }
                }
                t = t + 1;
            }
            proof {
                assert forall|k2: int, q2: int|
                    0 <= k2 < k + 1 && 0 <= q2 < pre.groups@[k2].lonelies(pre.cells@).len()
                    implies list@.contains(
                    #[trigger] pre.groups@[k2].lonelies(pre.cells@)[q2],
                ) by {
                    if k2 == k {
                        assert(list@[list0.len() + q2] == lon@[q2]);
                    }
                }
            }
            k = k + 1;
        }
        let mut q: usize = 0;
        while q < list.len()
            invariant
                pre.wf(),
                game.wf(),
                0 <= q <= list@.len(),
                step_extends(pre, *game),
                forall|q2: int|
                    0 <= q2 < list@.len() ==> {
                        let e = #[trigger] list@[q2];
                        &&& pre.pos_in_range(e.0)
                        &&& pre.cells@[pre.cell_index(e.0.0 as int, e.0.1 as int)].answer is None
                        &&& 1 <= e.1 <= pre.side()
                    },
                game.setting == pre.setting,
                pre.sound() ==> game.sound(),
                forall|q2: int|
                    0 <= q2 < list@.len() ==> from_some_lonely(pre, #[trigger] list@[q2]),
                forall|k2: int, q2: int|
                    0 <= k2 < pre.groups@.len() && 0 <= q2 < pre.groups@[k2].lonelies(pre.cells@).len()
                        ==> list@.contains(#[trigger] pre.groups@[k2].lonelies(pre.cells@)[q2]),
                pre.no_hidden_single_anywhere() ==> list@.len() == 0,
                forall|q2: int|
                    0 <= q2 < q ==> (#[trigger] game.cells@[pre.cell_index(
                        list@[q2].0.0 as int,
                        list@[q2].0.1 as int,
                    )]).answer is Some,
                forall|j: int|
                    0 <= j < pre.cells@.len() && (#[trigger] pre.cells@[j]).answer is None && (
                    #[trigger] game.cells@[j]).answer is Some ==> exists|q2: int|
                        0 <= q2 < q && (#[trigger] list@[q2]).0 == pre.cells@[j].pos
                            && game.cells@[j].answer == Some(list@[q2].1),
                game.answered_count == pre.answered_count ==> *game == pre && q == 0,
                q == 0 ==> *game == pre,
            decreases list@.len() - q,
        {
            let (p, v) = list[q];
            let ghost before = *game;
            proof {
                assert(game.pos_in_range(p));
                assert(game.side() == pre.side());
            }
            game.set_answer(p, v);
            proof {
                let ii = pre.cell_index(p.0 as int, p.1 as int);
                let s = pre.side();
                assert(0 <= ii < s * s) by (nonlinear_arith)
                    requires 0 <= (p.0 as int) < s, 0 <= (p.1 as int) < s, ii == p.1 * s + p.0;
                vstd::arithmetic::div_mod::lemma_fundamental_div_mod_converse(
                    ii,
                    s,
                    p.1 as int,
                    p.0 as int,
                );
                assert(pre.cells@[ii].pos == p);
                if before.cells@[ii].answer is Some {
                    assert(*game == before);
                } else {
                    assert(before.set_answer_filled(*game, p, v));
                    if pre.sound() {
                        lemma_set_answer_sound(&before, game, p, v);
                    }
                    assert(game.cells@[ii].answer == Some(v));
                }
                if game.answered_count == pre.answered_count {
                    assert(before == pre && q == 0);
                    assert(pre.cells@[ii].answer is None);
                    assert(false);
                }
                assert forall|q2: int| 0 <= q2 < q + 1 implies (
                #[trigger] game.cells@[pre.cell_index(
                    list@[q2].0.0 as int,
                    list@[q2].0.1 as int,
                )]).answer is Some by {
                    let jj = pre.cell_index(list@[q2].0.0 as int, list@[q2].0.1 as int);
                    assert(0 <= jj < s * s) by (nonlinear_arith)
                        requires
                            0 <= (list@[q2].0.0 as int) < s,
                            0 <= (list@[q2].0.1 as int) < s,
                            jj == list@[q2].0.1 * s + list@[q2].0.0,
                    ;
                    if q2 < q {
                        assert(before.cells@[jj].answer is Some);
                        if before.cells@[ii].answer is Some {
                            assert(*game == before);
                        } else {
                            assert(game.cells@[jj].answer == before.cells@[jj].answer || jj == ii);
                        }
                    } else {
                        assert(jj == ii);
                        assert(game.cells@[ii].answer is Some);
                    }
                }
                assert forall|j: int|
                    0 <= j < pre.cells@.len() && (#[trigger] pre.cells@[j]).answer is None && (
                    #[trigger] game.cells@[j]).answer is Some implies exists|q2: int|
                    0 <= q2 < q + 1 && (#[trigger] list@[q2]).0 == pre.cells@[j].pos
                        && game.cells@[j].answer == Some(list@[q2].1) by {
                    if before.cells@[j].answer is Some {
                        let q2 = choose|q2: int|
                            0 <= q2 < q && (#[trigger] list@[q2]).0 == pre.cells@[j].pos
                                && before.cells@[j].answer == Some(list@[q2].1);
                        assert(game.cells@[j].answer == before.cells@[j].answer);
                    } else {
                        assert(j == ii);
                        assert(list@[q as int].0 == pre.cells@[j].pos && game.cells@[j].answer
                            == Some(list@[q as int].1));
                    }
                }
            }
            q = q + 1;
        }
        proof {
            if game.answered_count == pre.answered_count {
                assert(*game == pre && q == 0);
                assert(list@.len() == 0);
                assert forall|k2: int| 0 <= k2 < pre.groups@.len() implies (
                #[trigger] pre.groups@[k2]).no_hidden_single(pre.cells@) by {
                    let g = pre.groups@[k2];
                    group::lemma_lonelies_empty(&g, pre.cells@, g.answer_candidate@.len() as int);
                    assert(g.lonelies(pre.cells@).len() == 0) by {
                        if g.lonelies(pre.cells@).len() > 0 {
                            assert(list@.contains(pre.groups@[k2].lonelies(pre.cells@)[0]));
                        }
                    }
                }
            }
            if pre.no_hidden_single_anywhere() {
                assert(list@.len() == 0);
                assert(*game == pre);
            }
            assert forall|k2: int, q2: int|
                0 <= k2 < pre.groups@.len() && 0 <= q2 < (#[trigger] pre.groups@[k2].lonelies(
                    pre.cells@,
                )).len() implies (#[trigger] game.cells@[pre.cell_index(
                pre.groups@[k2].lonelies(pre.cells@)[q2].0.0 as int,
                pre.groups@[k2].lonelies(pre.cells@)[q2].0.1 as int,
            )]).answer is Some by {
                let e = pre.groups@[k2].lonelies(pre.cells@)[q2];
                assert(list@.contains(e));
                let q3 = choose|q3: int| 0 <= q3 < list@.len() && list@[q3] == e;
                assert(game.cells@[pre.cell_index(
                    list@[q3].0.0 as int,
                    list@[q3].0.1 as int,
                )].answer is Some);
            }
        }
    }

    /// Solve the game.  A returned grid is complete and keeps every
    /// answer the starting grid already had.  A grid that is already
    /// complete comes back with its answers untouched, and a grid with a
    /// duplicated answer in some group yields nothing.
    pub fn solve(&self) -> (r: Option<NormalGame>)
        requires
            self.game.wf(),
        ensures
            r matches Some(g) ==> g.wf() && g.status_spec() == GameState::Complete
                && answers_extend(self.game, g),
            self.game.status_spec() == GameState::Complete ==> (r matches Some(g2) && answers_eq(
                self.game,
                g2,
            )),
            self.game.exists_duplicate() ==> r is None,
            (exists|c: NormalGame| is_solution_of(c, self.game)) ==> r is Some,
        decreases self.game.side() * self.game.side() - self.game.answered_count, 1int,
    {
        let ghost orig = self.game;
        let mut game = self.game.clone();
        proof {
            lemma_count_answered_bounds(orig.cells@);
            if orig.status_spec() == GameState::Complete {
                lemma_replay_complete(&orig, &game);
            }
            if orig.exists_duplicate() {
                assert forall|k: int| 0 <= k < orig.groups@.len() implies (
                #[trigger] orig.groups@[k]).members_bound(orig.cells@.len() as int) by {
                    lemma_groups_sane(&orig, k);
                }
                lemma_wf_groups_equal(&orig, &game);
                lemma_duplicate_extends(&orig, &game);
            }
            lemma_wf_groups_equal(&orig, &game);
            assert forall|c: NormalGame| is_solution_of(c, orig) implies is_solution_of(
                c,
                game,
            ) by {
                lemma_count_answered_bounds(game.cells@);
                assert(c.answered_count == count_answered(c.cells@));
            }
        }
        loop
            invariant
                orig == self.game,
                orig.wf(),
                game.wf(),
                answers_extend(orig, game),
                forall|k: int|
                    0 <= k < game.groups@.len() ==> (#[trigger] game.groups@[k]).cells@
                        == orig.groups@[k].cells@,
                orig.exists_duplicate() ==> game.exists_duplicate(),
                orig.status_spec() == GameState::Complete ==> answers_eq(orig, game)
                    && game.status_spec() == GameState::Complete,
                game.sound(),
                forall|c: NormalGame| is_solution_of(c, orig) ==> is_solution_of(c, game),
            decreases game.side() * game.side() - game.answered_count,
        {
            let ghost round0 = game;
            let before = game.answered_count;
            Solver::fill_lonely_in_cell(&mut game);
            let ghost mid = game;
            Solver::fill_lonely_in_group(&mut game);
            proof {
                lemma_count_answered_bounds(game.cells@);
                lemma_answers_extend_trans(orig, round0, mid);
                lemma_answers_extend_trans(orig, mid, game);
                if orig.exists_duplicate() {
                    assert forall|k: int| 0 <= k < round0.groups@.len() implies (
                    #[trigger] round0.groups@[k]).members_bound(round0.cells@.len() as int) by {
                        lemma_groups_sane(&round0, k);
                    }
                    lemma_duplicate_extends(&round0, &mid);
                    assert forall|k: int| 0 <= k < mid.groups@.len() implies (
                    #[trigger] mid.groups@[k]).members_bound(mid.cells@.len() as int) by {
                        lemma_groups_sane(&mid, k);
                    }
                    lemma_duplicate_extends(&mid, &game);
                }
                if orig.status_spec() == GameState::Complete {
                    assert(round0.answered_count == round0.side() * round0.side());
                    assert(mid.answered_count == round0.answered_count);
                    assert(mid == round0);
                    assert(game.answered_count == mid.answered_count);
                    assert(game == mid);
                }
                assert forall|c: NormalGame| is_solution_of(c, orig) implies is_solution_of(
                    c,
                    game,
                ) by {
                    assert(is_solution_of(c, round0));
                    lemma_count_answered_bounds(mid.cells@);
                    lemma_count_answered_bounds(game.cells@);
                    assert(c.answered_count == count_answered(c.cells@));
                    assert(c.side() == round0.side());
                    // the naked-single pass only writes what the completion holds
                    assert(answers_extend(mid, c)) by {
                        assert forall|j: int|
                            0 <= j < mid.cells@.len() && (#[trigger] mid.cells@[j]).answer is Some
                            implies c.cells@[j].answer == mid.cells@[j].answer by {
                            if round0.cells@[j].answer is None {
                                lemma_solution_in_candidates(&round0, &c, j);
                                let cv = c.cells@[j].answer->0;
                                assert(round0.cells@[j].answer_candidate@.len() == 1);
                                assert(round0.cells@[j].answer_candidate@[0] == cv) by {
                                    let qi = choose|qi: int|
                                        0 <= qi < round0.cells@[j].answer_candidate@.len()
                                            && round0.cells@[j].answer_candidate@[qi] == cv;
                                }
                            }
                        }
                    }
                    assert(is_solution_of(c, mid));
                    // the hidden-single pass only writes what the completion holds
                    assert(answers_extend(game, c)) by {
                        assert forall|j: int|
                            0 <= j < game.cells@.len() && (#[trigger] game.cells@[j]).answer is Some
                            implies c.cells@[j].answer == game.cells@[j].answer by {
                            if mid.cells@[j].answer is None {
                                let (k, q) = choose|k: int, q: int|
                                    #![trigger mid.groups@[k].lonelies(mid.cells@)[q]]
                                    0 <= k < mid.groups@.len() && 0 <= q < mid.groups@[k].lonelies(
                                        mid.cells@,
                                    ).len() && mid.groups@[k].lonelies(mid.cells@)[q].0
                                        == mid.cells@[j].pos && game.cells@[j].answer == Some(
                                        mid.groups@[k].lonelies(mid.cells@)[q].1,
                                    );
                                let e = mid.groups@[k].lonelies(mid.cells@)[q];
                                group::lemma_lonelies_entries(
                                    &mid.groups@[k],
                                    mid.cells@,
                                    mid.groups@[k].answer_candidate@.len() as int,
                                );
                                lemma_lonely_entry_solution(&mid, &c, k, e);
                                let s2 = mid.side();
                                vstd::arithmetic::div_mod::lemma_fundamental_div_mod(j, s2);
                                assert(mid.cell_index(e.0.0 as int, e.0.1 as int) == j)
                                    by (nonlinear_arith)
                                    requires
                                        e.0.0 == j % s2,
                                        e.0.1 == j / s2,
                                        j == s2 * (j / s2) + j % s2,
                                        mid.cell_index(e.0.0 as int, e.0.1 as int) == e.0.1 * s2
                                            + e.0.0,
                                ;
                            }
                        }
                    }
                }
            }
            let st = game.check_status();
            match st {
                GameState::Complete => {
                    return Some(game);
                },
                GameState::Failure => {
                    proof {
                        if orig.status_spec() == GameState::Complete {
                            assert(game.status_spec() == GameState::Complete);
                        }
                        if exists|c: NormalGame| is_solution_of(c, orig) {
                            let c = choose|c: NormalGame| is_solution_of(c, orig);
                            lemma_solution_no_failure(&game, &c);
                            assert(false);
                        }
                    }
                    return None;
                },
                GameState::Solving => {},
            }
            if before == game.answered_count {
                proof {
                    assert(game.status_spec() != GameState::Failure);
                    if orig.exists_duplicate() {
                        assert(game.exists_duplicate());
                        assert(game.status_spec() == GameState::Failure);
                    }
                    assert(game.status_spec() == GameState::Solving);
                }
                let r = self.assume_and_solve(&game);
                proof {
                    if exists|c: NormalGame| is_solution_of(c, orig) {
                        let c = choose|c: NormalGame| is_solution_of(c, orig);
                        assert(is_solution_of(c, game));
                        assert(r is Some);
                    }
                }
                return r;
            }
            proof {
                assert(game.answered_count > before);
            }
        }
    }

    /// When propagation stalls, guess: take the open cell with the
    /// fewest remaining candidates (first such cell on ties) and try its
    /// candidates in order, each on an independent copy.  When no open
    /// cell has a candidate left, the grid cannot be completed from
    /// here.
    fn assume_and_solve(&self, game: &NormalGame) -> (r: Option<NormalGame>)
        requires
            self.game.wf(),
            game.wf(),
            game.sound(),
            game.status_spec() == GameState::Solving,
            answers_extend(self.game, *game),
        ensures
            r matches Some(g) ==> g.wf() && g.status_spec() == GameState::Complete
                && answers_extend(self.game, g),
            (exists|c: NormalGame| is_solution_of(c, *game)) ==> r is Some,
        decreases self.game.side() * self.game.side() - game.answered_count, 0int,
    {
        let mut best: usize = 0;
        let mut best_cnt: usize = 0;
        let mut found = false;
        let mut i: usize = 0;
        while i < game.cells.len()
            invariant
                game.wf(),
                0 <= i <= game.cells@.len(),
                found ==> best < game.cells@.len() && best_cnt
                    == game.cells@[best as int].answer_candidate@.len() && best_cnt > 0,
                !found ==> forall|j: int|
                    0 <= j < i ==> (#[trigger] game.cells@[j]).answer_candidate@.len() == 0,
            decreases game.cells@.len() - i,
        {
            let c = game.cells[i].answer_candidate_count();
            if c != 0 && (!found || c < best_cnt) {
                found = true;
                best = i;
                best_cnt = c;
            }
            i = i + 1;
        }
        if !found {
            proof {
                assert forall|j: int| 0 <= j < game.cells@.len() implies (
                #[trigger] game.cells@[j]).answer is Some by {
                    assert(game.cells@[j].answer_candidate@.len() == 0);
                    assert(!(game.cells@[j].answer is None && game.cells@[j].answer_candidate@.len()
                        == 0));
                }
                crate::normal_game::lemma_count_answered_all(game.cells@);
                assert(game.answered_count == game.side() * game.side());
                assert(false);
            }
            return None;
        }
        let p = game.cells[best].pos();
        let cands = crate::normal_game::setting::copy_u8_vec(
            game.cells[best].answer_candidate(),
        );
        proof {
            lemma_wf_positions(game);
            lemma_count_answered_bounds(game.cells@);
            assert(game.cells@[best as int].answer is None) by {
                assert(game.cells@[best as int].wf(game.side()));
            }
            assert forall|c: NormalGame| is_solution_of(c, *game) implies exists|q2: int|
                0 <= q2 < cands@.len() && cands@[q2] == c.cells@[best as int].answer->0 by {
                lemma_solution_in_candidates(game, &c, best as int);
            }
        }
        let mut q: usize = 0;
        while q < cands.len()
            invariant
                self.game.wf(),
                game.wf(),
                answers_extend(self.game, *game),
                best < game.cells@.len(),
                game.pos_in_range(p),
                p == game.cells@[best as int].pos,
                cands@ == game.cells@[best as int].answer_candidate@,
                cands@.len() > 0,
                0 <= q <= cands@.len(),
                game.sound(),
                game.cells@[best as int].answer is None,
                forall|c: NormalGame|
                    is_solution_of(c, *game) ==> exists|q2: int|
                        q <= q2 < cands@.len() && cands@[q2] == c.cells@[best as int].answer->0,
            decreases cands@.len() - q,
        {
            let v = cands[q];
            let mut ng = game.clone();
            proof {
                assert(game.cells@[best as int].answer is None) by {
                    assert(game.cells@[best as int].wf(game.side()));
                }
                assert(ng.cells@[best as int].answer is None);
                assert(1 <= v <= game.side()) by {
                    assert(game.cells@[best as int].answer_candidate@[q as int] == v);
                }
                let s = game.side();
                let bi = best as int;
                vstd::arithmetic::div_mod::lemma_fundamental_div_mod(bi, s);
                assert(ng.cell_index(p.0 as int, p.1 as int) == bi) by (nonlinear_arith)
                    requires
                        p.0 == bi % s,
                        p.1 == bi / s,
                        bi == s * (bi / s) + bi % s,
                        ng.cell_index(p.0 as int, p.1 as int) == p.1 * s + p.0,
                ;
                lemma_count_answered_bounds(game.cells@);
            }
            let ghost ng0 = ng;
            ng.set_answer(p, v);
            proof {
                assert(ng0.set_answer_filled(ng, p, v));
                assert(ng.answered_count == game.answered_count + 1);
            }
            let solver = Solver::new(&ng);
            proof {
                assert(solver.game.side() == self.game.side());
                assert(solver.game.answered_count == ng.answered_count);
                assert(answers_extend(self.game, ng)) by {
                    assert(answers_extend(*game, ng));
                    lemma_answers_extend_trans(self.game, *game, ng);
                }
            }
            proof {
                lemma_count_answered_bounds(game.cells@);
                assert(game.side() == self.game.side());
                assert(solver.game.side() == self.game.side());
                assert(game.answered_count < game.cells@.len()) by {
                    if game.answered_count == game.cells@.len() {
                        lemma_count_answered_full(game.cells@);
                        assert(game.cells@[best as int].answer is Some);
                    }
                }
                assert(solver.game.answered_count == game.answered_count + 1);
                assert(0 <= solver.game.side() * solver.game.side()
                    - solver.game.answered_count < self.game.side() * self.game.side()
                    - game.answered_count);
            }
            let res = solver.solve();
            match res {
                Some(g) => {
                    proof {
                        assert(answers_extend(solver.game, g));
                        assert(answers_extend(ng, solver.game));
                        lemma_answers_extend_trans(ng, solver.game, g);
                        lemma_answers_extend_trans(self.game, ng, g);
                    }
                    return Some(g);
                },
                None => {},
            }
            proof {
                assert forall|c: NormalGame| is_solution_of(c, *game) implies exists|q2: int|
                    q + 1 <= q2 < cands@.len() && cands@[q2] == c.cells@[best as int].answer->0 by {
                    let q2 = choose|q2: int|
                        q <= q2 < cands@.len() && cands@[q2] == c.cells@[best as int].answer->0;
                    if q2 == q {
                        assert(is_solution_of(c, solver.game)) by {
                            assert(c.answered_count == count_answered(c.cells@));
                            assert(c.answered_count == c.side() * c.side());
                            lemma_count_answered_full(c.cells@);
                            assert(c.cells@[best as int].answer is Some);
                            assert(c.cells@[best as int].answer == Some(v));
                            assert(answers_extend(ng, c)) by {
                                lemma_count_answered_bounds(ng.cells@);
                                assert(c.answered_count == count_answered(c.cells@));
                                assert(c.answered_count == c.side() * c.side());
                                assert(c.side() == ng.side());
                            }
                            assert(answers_extend(solver.game, c));
                        }
                        assert(res is Some);
                        assert(false);
                    }
                }
            }
            q = q + 1;
        }
        proof {
            if exists|c: NormalGame| is_solution_of(c, *game) {
                let c = choose|c: NormalGame| is_solution_of(c, *game);
                let q2 = choose|q2: int|
                    q <= q2 < cands@.len() && cands@[q2] == c.cells@[best as int].answer->0;
                assert(false);
            }
        }
        None
    }

    /// Both rules to a fixed point.  Afterwards neither rule can move,
    /// and running the pass on an already-stable grid changes nothing.
    pub fn propagate(game: &mut NormalGame)
        requires
            old(game).wf(),
        ensures
            final(game).wf(),
            step_extends(*old(game), *final(game)),
            final(game).propagation_stable(),
            old(game).propagation_stable() ==> *final(game) == *old(game),
    {
        let ghost pre = *game;
        loop
            invariant_except_break
                game.wf(),
                step_extends(pre, *game),
                pre.propagation_stable() ==> *game == pre,
            ensures
                game.wf(),
                step_extends(pre, *game),
                game.propagation_stable(),
                pre.propagation_stable() ==> *game == pre,
            decreases game.side() * game.side() - game.answered_count,
        {
            let ghost round0 = *game;
            let before = game.answered_count;
            Solver::fill_lonely_in_cell(game);
            let ghost mid = *game;
            Solver::fill_lonely_in_group(game);
            proof {
                lemma_count_answered_bounds(game.cells@);
            }
            if before == game.answered_count {
                proof {
                    assert(mid.answered_count == round0.answered_count);
                    assert(mid == round0 && round0.no_naked_single());
                    assert(*game == round0 && round0.no_hidden_single_anywhere());
                }
                break ;
            }
        }
    }
}

} // verus!
