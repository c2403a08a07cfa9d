//! A constraint-based engine for grid Latin-square puzzles (generalized
//! number place with a configurable block height and width).  The grid is
//! modelled as an arena of cells addressed by index; row, column and block
//! groups store index lists into that arena.
use vstd::prelude::*;

pub mod game;
pub mod generator;
pub mod normal_game;
pub mod pattern;
pub mod random;
pub mod solver;

verus! {

use crate::normal_game::cell::Position;
use crate::normal_game::setting::BlockSize;
use crate::normal_game::setting::GameSetting;
use crate::normal_game::GameState;
use crate::normal_game::NormalGame;

/// Generate a number-place problem.  The first element of the returned
/// pair is the question, the second is the answer key; the question only
/// keeps answers the key has.  Sizes up to a handful of blocks generate
/// quickly; large ones take their time.
pub fn generate_numberplace(block_size: BlockSize) -> (r: Option<(NormalGame, NormalGame)>)
    requires
        1 <= block_size.height,
        1 <= block_size.width,
        block_size.height * block_size.width <= 255,
    ensures
        r matches Some(pair) ==> pair.0.wf() && pair.1.wf() && pair.1.setting.block_size
            == block_size && pair.1.status_spec() == GameState::Complete
            && pair.0.setting.eq_view(&pair.1.setting) && crate::normal_game::answers_extend(
            pair.0,
            pair.1,
        ),
        r is Some,
{
    let mut src = crate::random::RandomIndexSource::new();
    NormalGame::generate(block_size, &mut src)
}

/// `c` is a complete grid over the plain `1..=side` alphabet for this
/// block size that agrees with every symbol the text seeds.
pub open spec fn completes_issue(c: NormalGame, block_size: BlockSize, issue: Seq<char>) -> bool {
    &&& c.wf()
    &&& c.status_spec() == GameState::Complete
    &&& c.setting.block_size == block_size
    &&& forall|i: int|
        0 <= i < c.setting.answer_candidate@.len() ==> #[trigger] c.setting.answer_candidate@[i]
            == i + 1
    &&& forall|x: int, y: int|
        0 <= x < c.side() && 0 <= y < c.side() && (#[trigger] crate::normal_game::text::seeded(
            issue,
            c.side(),
            x,
            y,
        )) is Some ==> c.cells@[c.cell_index(x, y)].answer == crate::normal_game::text::seeded(
            issue,
            c.side(),
            x,
            y,
        )
}

/// Solve a number-place problem given as a row-delimited text such as
/// `"5 2 9 1|   1   8|..."`.  A returned grid is complete and keeps every
/// symbol the text seeds, and one is returned whenever the seeded puzzle
/// has any completion at all.
pub fn solve_numberplace(block_size: BlockSize, issue: &str) -> (r: Option<NormalGame>)
    requires
        1 <= block_size.height,
        1 <= block_size.width,
        block_size.height * block_size.width <= 255,
    ensures
        r matches Some(g) ==> g.wf() && g.status_spec() == GameState::Complete
            && g.setting.block_size == block_size && forall|x: int, y: int|
            0 <= x < g.side() && 0 <= y < g.side() && (#[trigger] crate::normal_game::text::seeded(
                issue@,
                g.side(),
                x,
                y,
            )) is Some ==> g.cells@[g.cell_index(x, y)].answer
                == crate::normal_game::text::seeded(issue@, g.side(), x, y),
        (exists|c: NormalGame| completes_issue(c, block_size, issue@)) ==> r is Some,
{
    let mut game = NormalGame::new(GameSetting::new(block_size));
    let ghost fresh = game;
    game.load(issue);
    let ghost loaded = game;
    let solver = crate::solver::Solver::new(&game);
    let r = solver.solve();
    proof {
        let sdi = fresh.side();
        assert(loaded.side() == sdi);
        crate::normal_game::lemma_count_answered_bounds(loaded.cells@);
        assert forall|j: int| 0 <= j < loaded.cells@.len() implies (
        #[trigger] loaded.cells@[j]).answer == crate::normal_game::text::seeded(
            issue@,
            sdi,
            j % sdi,
            j / sdi,
        ) by {
            vstd::arithmetic::div_mod::lemma_mod_bound(j, sdi);
            assert(0 <= j / sdi < sdi) by (nonlinear_arith)
                requires 0 <= j < sdi * sdi, 1 <= sdi;
            vstd::arithmetic::div_mod::lemma_fundamental_div_mod(j, sdi);
            assert(fresh.cell_index(j % sdi, j / sdi) == j) by (nonlinear_arith)
                requires
                    j == sdi * (j / sdi) + j % sdi,
                    fresh.cell_index(j % sdi, j / sdi) == (j / sdi) * sdi + j % sdi,
            ;
            assert(loaded.cells@[fresh.cell_index(j % sdi, j / sdi)].answer
                == crate::normal_game::text::seeded(issue@, fresh.side(), j % sdi, j / sdi));
        }
        if r is Some {
            let g = r->0;
            {
                assert forall|x: int, y: int|
                    0 <= x < g.side() && 0 <= y < g.side() && (
                    #[trigger] crate::normal_game::text::seeded(
                        issue@,
                        g.side(),
                        x,
                        y,
                    )) is Some implies g.cells@[g.cell_index(x, y)].answer
                    == crate::normal_game::text::seeded(issue@, g.side(), x, y) by {
                    assert(g.side() == sdi);
                    let j = loaded.cell_index(x, y);
                    assert(0 <= j < sdi * sdi) by (nonlinear_arith)
                        requires 0 <= x < sdi, 0 <= y < sdi, j == y * sdi + x;
                    vstd::arithmetic::div_mod::lemma_fundamental_div_mod_converse(j, sdi, y, x);
                    assert(loaded.cells@[j].answer == crate::normal_game::text::seeded(
                        issue@,
                        sdi,
                        x,
                        y,
                    ));
                    assert(solver.game.cells@[j].answer == loaded.cells@[j].answer);
                    assert(g.cells@[j].answer == loaded.cells@[j].answer);
                    assert(g.cell_index(x, y) == j);
                }
            }
        }
        if exists|c: NormalGame| completes_issue(c, block_size, issue@) {
            let c = choose|c: NormalGame| completes_issue(c, block_size, issue@);
            assert(crate::solver::is_solution_of(c, solver.game)) by {
                assert(c.side() == sdi);
                assert(c.setting.answer_candidate@ =~= loaded.setting.answer_candidate@);
                assert(c.setting.eq_view(&solver.game.setting));
                crate::normal_game::lemma_wf_positions(&c);
                crate::normal_game::lemma_wf_positions(&loaded);
                assert forall|j: int|
                    0 <= j < solver.game.cells@.len() && (
                    #[trigger] solver.game.cells@[j]).answer is Some implies c.cells@[j].answer
                    == solver.game.cells@[j].answer by {
                    vstd::arithmetic::div_mod::lemma_mod_bound(j, sdi);
                    assert(0 <= j / sdi < sdi) by (nonlinear_arith)
                        requires 0 <= j < sdi * sdi, 1 <= sdi;
                    vstd::arithmetic::div_mod::lemma_fundamental_div_mod(j, sdi);
                    assert(c.cell_index(j % sdi, j / sdi) == j) by (nonlinear_arith)
                        requires
                            j == sdi * (j / sdi) + j % sdi,
                            c.cell_index(j % sdi, j / sdi) == (j / sdi) * sdi + j % sdi,
                    ;
                    assert(loaded.cells@[j].answer == crate::normal_game::text::seeded(
                        issue@,
                        sdi,
                        j % sdi,
                        j / sdi,
                    ));
                    assert(c.cells@[j].answer == loaded.cells@[j].answer);
                }
                assert forall|j: int| 0 <= j < c.cells@.len() implies (
                #[trigger] c.cells@[j]).pos == solver.game.cells@[j].pos by {
                    assert(c.cells@[j].pos.0 == j % sdi && c.cells@[j].pos.1 == j / sdi);
                    assert(solver.game.cells@[j].pos.0 == j % sdi && solver.game.cells@[j].pos.1
                        == j / sdi);
                    assert(c.cells@[j].pos == Position(
                        (j % sdi) as u8,
                        (j / sdi) as u8,
                    )) by {
                        let pp = c.cells@[j].pos;
                        assert(pp.0 == (j % sdi) as u8 && pp.1 == (j / sdi) as u8);
                    }
                    assert(solver.game.cells@[j].pos == Position(
                        (j % sdi) as u8,
                        (j / sdi) as u8,
                    )) by {
                        let pp = solver.game.cells@[j].pos;
                        assert(pp.0 == (j % sdi) as u8 && pp.1 == (j / sdi) as u8);
                    }
                }
                crate::normal_game::lemma_count_answered_bounds(solver.game.cells@);
                assert(c.answered_count == crate::normal_game::count_answered(c.cells@));
                assert(c.answered_count == c.side() * c.side());
            }
            assert(r is Some);
        }
    }
    r
}

} // verus!
