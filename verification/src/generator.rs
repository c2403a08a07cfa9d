//! Producing a puzzle: a randomized solved grid is dug out answer by
//! answer, and a removal stays only while the puzzle keeps yielding the
//! same solved grid under four independent solve attempts (the grid
//! itself and its three reflections).  The agreement of the four is a
//! practical stand-in for a uniqueness proof, not an exhaustive check.
use vstd::prelude::*;

verus! {

use crate::normal_game::answers_extend;
use crate::normal_game::cell::Position;
use crate::normal_game::lemma_answers_extend_trans;
use crate::normal_game::lemma_groups_sane;
use crate::normal_game::lemma_wf_positions;
use crate::normal_game::GameState;
use crate::normal_game::NormalGame;
use crate::normal_game::setting::BlockSize;
use crate::normal_game::setting::GameSetting;
use crate::normal_game::shuffle::is_perm;
use crate::random::IndexSource;
use crate::solver::Solver;

/// The permutation reversing `0 .. side`.
fn mirror_perm(side: u8) -> (r: Vec<u8>)
    requires
        1 <= side,
    ensures
        is_perm(r@, side as int),
        forall|y: int| 0 <= y < side as int ==> #[trigger] r@[y] == side - 1 - y,
{
    let mut r: Vec<u8> = Vec::new();
    let mut i: u8 = 0;
    while i < side
        invariant
            0 <= i <= side,
            r@.len() == i,
            forall|y: int| 0 <= y < i ==> #[trigger] r@[y] == side - 1 - y,
        decreases side - i,
    {
        r.push(side - 1 - i);
        i = i + 1;
    }
    r
}

/// The symbol of the cyclic solved pattern at `(x, y)`: row `y` is row
/// zero rotated left, with rows arranged so that every band and block
/// stays valid.
pub open spec fn cyclic_value(h: int, w: int, x: int, y: int) -> int {
    (((y % h) * w + y / h + x) % (h * w)) + 1
}

/// Two numbers less than a span apart with the same remainder are equal.
proof fn lemma_mod_window(a: int, b: int, s: int)
    requires
        1 <= s,
        0 <= a,
        0 <= b,
        a % s == b % s,
        -s < a - b < s,
    ensures
        a == b,
{
    vstd::arithmetic::div_mod::lemma_fundamental_div_mod(a, s);
    vstd::arithmetic::div_mod::lemma_fundamental_div_mod(b, s);
    assert(a / s == b / s) by (nonlinear_arith)
        requires
            a == s * (a / s) + a % s,
            b == s * (b / s) + b % s,
            a % s == b % s,
            -s < a - b < s,
            1 <= s,
    ;
}

/// The row offset `(y % h) * w + y / h` maps the rows one-to-one onto
/// `0 .. h*w`.
proof fn lemma_offset_injective(h: int, w: int, y1: int, y2: int)
    requires
        1 <= h,
        1 <= w,
        0 <= y1 < h * w,
        0 <= y2 < h * w,
    ensures
        0 <= (y1 % h) * w + y1 / h < h * w,
        y1 != y2 ==> (y1 % h) * w + y1 / h != (y2 % h) * w + y2 / h,
{
    vstd::arithmetic::div_mod::lemma_mod_bound(y1, h);
    vstd::arithmetic::div_mod::lemma_mod_bound(y2, h);
    assert(0 <= y1 / h < w && 0 <= y2 / h < w) by (nonlinear_arith)
        requires 0 <= y1 < h * w, 0 <= y2 < h * w, 1 <= h, 1 <= w;
    assert(0 <= (y1 % h) * w + y1 / h < h * w) by (nonlinear_arith)
        requires 0 <= y1 % h <= h - 1, 0 <= y1 / h <= w - 1, 1 <= h, 1 <= w;
    if y1 != y2 && (y1 % h) * w + y1 / h == (y2 % h) * w + y2 / h {
        vstd::arithmetic::div_mod::lemma_fundamental_div_mod_converse(
            (y1 % h) * w + y1 / h,
            w,
            y1 % h,
            y1 / h,
        );
        vstd::arithmetic::div_mod::lemma_fundamental_div_mod_converse(
            (y2 % h) * w + y2 / h,
            w,
            y2 % h,
            y2 / h,
        );
        assert(y1 % h == y2 % h && y1 / h == y2 / h);
        vstd::arithmetic::div_mod::lemma_fundamental_div_mod(y1, h);
        vstd::arithmetic::div_mod::lemma_fundamental_div_mod(y2, h);
        assert(false);
    }
}

/// Two distinct positions of one row, column or block get different
/// cyclic symbols.
proof fn lemma_cyclic_no_conflict(h: int, w: int, p1: Position, p2: Position)
    requires
        1 <= h,
        1 <= w,
        h * w <= 255,
        0 <= p1.0 < h * w,
        0 <= p1.1 < h * w,
        0 <= p2.0 < h * w,
        0 <= p2.1 < h * w,
        p1 != p2,
        p1.1 == p2.1 || p1.0 == p2.0 || (p1.1 as int / h == p2.1 as int / h && p1.0 as int / w
            == p2.0 as int / w),
    ensures
        cyclic_value(h, w, p1.0 as int, p1.1 as int) != cyclic_value(
            h,
            w,
            p2.0 as int,
            p2.1 as int,
        ),
{
    let s = h * w;
    let x1 = p1.0 as int;
    let y1 = p1.1 as int;
    let x2 = p2.0 as int;
    let y2 = p2.1 as int;
    let o1 = (y1 % h) * w + y1 / h + x1;
    let o2 = (y2 % h) * w + y2 / h + x2;
    lemma_offset_injective(h, w, y1, y2);
    lemma_offset_injective(h, w, y2, y1);
    if cyclic_value(h, w, x1, y1) == cyclic_value(h, w, x2, y2) {
        assert(o1 % s == o2 % s);
        if y1 == y2 {
            assert(-s < o1 - o2 < s);
            lemma_mod_window(o1, o2, s);
            assert(x1 == x2);
            assert(false);
        } else if x1 == x2 {
            assert(-s < o1 - o2 < s);
            lemma_mod_window(o1, o2, s);
            assert(false);
        } else {
            // same block: same row band and same column band
            let t = y1 / h;
            vstd::arithmetic::div_mod::lemma_mod_bound(y1, h);
            vstd::arithmetic::div_mod::lemma_mod_bound(y2, h);
            vstd::arithmetic::div_mod::lemma_mod_bound(x1, w);
            vstd::arithmetic::div_mod::lemma_mod_bound(x2, w);
            vstd::arithmetic::div_mod::lemma_fundamental_div_mod(x1, w);
            vstd::arithmetic::div_mod::lemma_fundamental_div_mod(x2, w);
            assert(-s < o1 - o2 < s) by (nonlinear_arith)
                requires
                    o1 == (y1 % h) * w + y1 / h + x1,
                    o2 == (y2 % h) * w + y2 / h + x2,
                    y1 / h == y2 / h,
                    x1 == w * (x1 / w) + x1 % w,
                    x2 == w * (x2 / w) + x2 % w,
                    x1 / w == x2 / w,
                    0 <= y1 % h <= h - 1,
                    0 <= y2 % h <= h - 1,
                    0 <= x1 % w <= w - 1,
                    0 <= x2 % w <= w - 1,
                    s == h * w,
                    1 <= h,
                    1 <= w,
            ;
            lemma_mod_window(o1, o2, s);
            assert((y1 % h) * w + x1 == (y2 % h) * w + x2) by {
                assert(y2 / h == t);
            }
            vstd::arithmetic::div_mod::lemma_fundamental_div_mod(x1, w);
            vstd::arithmetic::div_mod::lemma_fundamental_div_mod(x2, w);
            let u = x1 / w;
            assert(x2 / w == u);
            vstd::arithmetic::div_mod::lemma_mod_bound(x1, w);
            vstd::arithmetic::div_mod::lemma_mod_bound(x2, w);
            assert((y1 % h) * w + x1 % w == (y2 % h) * w + x2 % w) by (nonlinear_arith)
                requires
                    (y1 % h) * w + x1 == (y2 % h) * w + x2,
                    x1 == w * u + x1 % w,
                    x2 == w * u + x2 % w,
            ;
            vstd::arithmetic::div_mod::lemma_fundamental_div_mod_converse(
                (y1 % h) * w + x1 % w,
                w,
                y1 % h,
                x1 % w,
            );
            vstd::arithmetic::div_mod::lemma_fundamental_div_mod_converse(
                (y2 % h) * w + x2 % w,
                w,
                y2 % h,
                x2 % w,
            );
            assert(y1 % h == y2 % h && x1 % w == x2 % w);
            vstd::arithmetic::div_mod::lemma_fundamental_div_mod(y1, h);
            vstd::arithmetic::div_mod::lemma_fundamental_div_mod(y2, h);
            assert(y1 == y2);
            assert(false);
        }
    }
}

impl NormalGame {
    /// A concrete complete grid over the given configuration, built from
    /// the cyclic pattern.  It serves as the witness that every size
    /// configuration admits a solution, which is what obliges the solver
    /// to succeed on an empty grid.
    fn build_cyclic_solved(setting: &GameSetting) -> (r: NormalGame)
        requires
            setting.wf(),
        ensures
            r.wf(),
            r.setting.eq_view(setting),
            r.status_spec() == GameState::Complete,
    {
        let side = setting.side_size();
        let h = setting.block_height();
        let w = setting.block_width();
        let ghost hh = h as int;
        let ghost ww = w as int;
        let ghost sdi = side as int;
        let mut ng = NormalGame::new(setting.clone());
        proof {
            assert forall|x2: int, y2: int|
                0 <= x2 < sdi && 0 <= y2 < sdi implies (#[trigger] ng.answer_at(
                x2,
                y2,
            )) is None by {
                assert(0 <= y2 * sdi + x2 < sdi * sdi) by (nonlinear_arith)
                    requires 0 <= x2 < sdi, 0 <= y2 < sdi;
            }
        }
        let mut y: u8 = 0;
        while y < side
            invariant
                setting.wf(),
                ng.wf(),
                ng.sound(),
                ng.setting.eq_view(setting),
                h == setting.block_size.height,
                w == setting.block_size.width,
                hh == h as int,
                ww == w as int,
                sdi == side as int,
                side == setting.side_spec(),
                ng.side() == sdi,
                ng.cells@.len() == sdi * sdi,
                0 <= y <= side,
                forall|x2: int, y2: int|
                    0 <= x2 < sdi && 0 <= y2 < sdi ==> #[trigger] ng.answer_at(x2, y2) == (if y2
                        < y {
                        Some(cyclic_value(hh, ww, x2, y2) as u8)
                    } else {
                        None
                    }),
            decreases side - y,
        {
            let mut x: u8 = 0;
            while x < side
                invariant
                    setting.wf(),
                    ng.wf(),
                    ng.sound(),
                    ng.setting.eq_view(setting),
                    h == setting.block_size.height,
                    w == setting.block_size.width,
                    hh == h as int,
                    ww == w as int,
                    sdi == side as int,
                    side == setting.side_spec(),
                    ng.side() == sdi,
                    ng.cells@.len() == sdi * sdi,
                    0 <= y < side,
                    0 <= x <= side,
                    forall|x2: int, y2: int|
                        0 <= x2 < sdi && 0 <= y2 < sdi ==> #[trigger] ng.answer_at(x2, y2) == (
                        if y2 < y || (y2 == y && x2 < x) {
                            Some(cyclic_value(hh, ww, x2, y2) as u8)
                        } else {
                            None
                        }),
                decreases side - x,
            {
                proof {
                    vstd::arithmetic::div_mod::lemma_mod_bound(y as int, hh);
                    assert(0 <= (y as int) / hh < ww) by (nonlinear_arith)
                        requires 0 <= (y as int) < hh * ww, 1 <= hh, 1 <= ww;
                    assert(((y as int) % hh) * ww + (y as int) / hh + (x as int) < 2 * sdi)
                        by (nonlinear_arith)
                        requires
                            0 <= (y as int) % hh <= hh - 1,
                            0 <= (y as int) / hh <= ww - 1,
                            0 <= (x as int) < sdi,
                            sdi == hh * ww,
                            1 <= hh,
                            1 <= ww,
                    ;
                }
                let v16: u16 = ((y % h) as u16 * w as u16 + (y / h) as u16 + x as u16)
                    % side as u16 + 1;
                let v: u8 = v16 as u8;
                proof {
                    vstd::arithmetic::div_mod::lemma_mod_bound(
                        ((y as int) % hh) * ww + (y as int) / hh + (x as int),
                        sdi,
                    );
                    assert(v as int == cyclic_value(hh, ww, x as int, y as int));
                    assert(1 <= v <= sdi);
                    assert(ng.answer_at(x as int, y as int) is None);
                    assert(ng.cells@[ng.cell_index(x as int, y as int)].answer is None);
                }
                let ghost png = ng;
                ng.set_answer(Position::new(x, y), v);
                proof {
                    crate::normal_game::lemma_set_answer_sound(&png, &ng, Position(x, y), v);
                    assert forall|x2: int, y2: int| 0 <= x2 < sdi && 0 <= y2 < sdi implies
                        #[trigger] ng.answer_at(x2, y2) == (if y2 < y as int || (y2 == y as int
                        && x2 < x as int + 1) {
                        Some(cyclic_value(hh, ww, x2, y2) as u8)
                    } else {
                        None
                    }) by {
                        assert(0 <= png.cell_index(x2, y2) < sdi * sdi) by (nonlinear_arith)
                            requires
                                0 <= x2 < sdi,
                                0 <= y2 < sdi,
                                png.cell_index(x2, y2) == y2 * sdi + x2,
                        ;
                        assert(png.answer_at(x2, y2) == png.cells@[png.cell_index(x2, y2)].answer);
                        assert(ng.answer_at(x2, y2) == ng.cells@[ng.cell_index(x2, y2)].answer);
                        if x2 == x as int && y2 == y as int {
                            assert(ng.cells@[png.cell_index(x2, y2)].answer == Some(v));
                        } else {
                            assert(png.cell_index(x2, y2) != png.cell_index(x as int, y as int))
                                by (nonlinear_arith)
                                requires
                                    0 <= x2 < sdi,
                                    0 <= y2 < sdi,
                                    0 <= (x as int) < sdi,
                                    0 <= (y as int) < sdi,
                                    !(x2 == x as int && y2 == y as int),
                                    png.cell_index(x2, y2) == y2 * sdi + x2,
                                    png.cell_index(x as int, y as int) == (y as int) * sdi + (
                                    x as int),
                            ;
                        }
                    }
                }
                x = x + 1;
            }
            y = y + 1;
        }
        proof {
            crate::normal_game::lemma_wf_positions(&ng);
            assert(ng.is_fully_answered()) by {
                assert forall|i: int| 0 <= i < ng.cells@.len() implies (
                #[trigger] ng.cells@[i]).answer is Some by {
                    let px = i % sdi;
                    let py = i / sdi;
                    vstd::arithmetic::div_mod::lemma_mod_bound(i, sdi);
                    assert(0 <= py < sdi) by (nonlinear_arith)
                        requires 0 <= i < sdi * sdi, 1 <= sdi, py == i / sdi;
                    vstd::arithmetic::div_mod::lemma_fundamental_div_mod(i, sdi);
                    assert(ng.cell_index(px, py) == i) by (nonlinear_arith)
                        requires
                            px == i % sdi,
                            py == i / sdi,
                            i == sdi * (i / sdi) + i % sdi,
                            ng.cell_index(px, py) == py * sdi + px,
                    ;
                    assert(ng.answer_at(px, py) is Some);
                }
            }
            assert(ng.no_conflict()) by {
                assert forall|p1: Position, p2: Position|
                    ng.pos_in_range(p1) && ng.pos_in_range(p2) && p1 != p2
                        && #[trigger] ng.same_unit(p1, p2) && (#[trigger] ng.answer_at(
                        p1.0 as int,
                        p1.1 as int,
                    )) is Some implies ng.answer_at(p1.0 as int, p1.1 as int) != ng.answer_at(
                    p2.0 as int,
                    p2.1 as int,
                ) by {
                    lemma_cyclic_no_conflict(hh, ww, p1, p2);
                    assert(ng.answer_at(p1.0 as int, p1.1 as int) == Some(
                        cyclic_value(hh, ww, p1.0 as int, p1.1 as int) as u8,
                    ));
                    assert(ng.answer_at(p2.0 as int, p2.1 as int) == Some(
                        cyclic_value(hh, ww, p2.0 as int, p2.1 as int) as u8,
                    ));
                    assert(1 <= cyclic_value(hh, ww, p1.0 as int, p1.1 as int) <= sdi);
                    assert(1 <= cyclic_value(hh, ww, p2.0 as int, p2.1 as int) <= sdi);
                }
            }
            crate::normal_game::shuffle::lemma_conflict_iff_duplicate(&ng);
            crate::solver::lemma_filled_nodup_complete(&ng);
        }
        ng
    }

    /// The grid mirrored left-right and/or top-bottom.
    fn reflect(&self, horiz: bool, vert: bool) -> (r: NormalGame)
        requires
            self.wf(),
        ensures
            r.wf(),
            r.setting.eq_view(&self.setting),
    {
        let side = self.setting.side_size();
        proof {
            let h = self.setting.block_size.height as int;
            let w = self.setting.block_size.width as int;
            assert(1 <= h * w) by (nonlinear_arith)
                requires 1 <= h, 1 <= w;
        }
        let m = mirror_perm(side);
        let step1 = if vert {
            self.apply_perm(&m, true)
        } else {
            self.clone()
        };
        proof {
            assert(step1.setting.eq_view(&self.setting));
        }
        if horiz {
            step1.apply_perm(&m, false)
        } else {
            step1
        }
    }

    /// Whether the puzzle still yields `solved` when solved as it is and
    /// after each of the three reflections (with the result reflected
    /// back).  Agreement across all four attempts is the generator's
    /// practical substitute for a uniqueness proof.
    fn digging_keeps_solution(puzzle: &NormalGame, solved: &NormalGame) -> bool
        requires
            puzzle.wf(),
            solved.wf(),
    {
        match Solver::new(puzzle).solve() {
            Some(g) => {
                if !(&g == solved) {
                    return false;
                }
            },
            None => {
                return false;
            },
        }
        let mut which: u8 = 0;
        while which < 3
            invariant
                0 <= which <= 3,
                puzzle.wf(),
                solved.wf(),
            decreases 3 - which,
        {
            let horiz = which == 0 || which == 2;
            let vert = which == 1 || which == 2;
            let rp = puzzle.reflect(horiz, vert);
            match Solver::new(&rp).solve() {
                Some(rg) => {
                    let back = rg.reflect(horiz, vert);
                    if !(&back == solved) {
                        return false;
                    }
                },
                None => {
                    return false;
                },
            }
            which = which + 1;
        }
        true
    }

    /// Digs holes into a copy of `solved`: repeatedly picks a random
    /// still-answered cell of the currently most answered group and
    /// removes its answer, keeping the removal only while the four solve
    /// attempts still agree on `solved`.  Digging stops after more than
    /// `side` consecutive rejections.
    fn to_issue<R: IndexSource>(solved: &NormalGame, src: &mut R) -> (r: NormalGame)
        requires
            solved.wf(),
        ensures
            r.wf(),
            r.setting.eq_view(&solved.setting),
            answers_extend(r, *solved),
    {
        let mut game = solved.clone();
        let side = solved.setting.side_size();
        let mut failures: u16 = 0;
        proof {
            assert(answers_extend(game, *solved));
        }
        loop
            invariant_except_break
                solved.wf(),
                game.wf(),
                game.setting.eq_view(&solved.setting),
                answers_extend(game, *solved),
                side == solved.setting.side_spec(),
                failures <= side as u16,
            ensures
                game.wf(),
                game.setting.eq_view(&solved.setting),
                answers_extend(game, *solved),
            decreases game.answered_count, side as int + 1 - failures,
        {
            // the most answered group, earliest on ties
            let mut bestk: usize = 0;
            let mut bestc: usize = 0;
            let mut k: usize = 0;
            proof {
                let h = game.setting.block_size.height as int;
                let w = game.setting.block_size.width as int;
                assert(1 <= h * w) by (nonlinear_arith)
                    requires 1 <= h, 1 <= w;
                assert(game.groups@.len() > 0);
            }
            while k < game.groups.len()
                invariant
                    game.wf(),
                    0 <= k <= game.groups@.len(),
                    bestk < game.groups@.len(),
                decreases game.groups@.len() - k,
            {
                proof {
                    lemma_groups_sane(&game, k as int);
                }
                let c = {
                    let g = &game.groups[k];
                    g.answer_count(&game.cells)
                };
                if bestc < c {
                    bestk = k;
                    bestc = c;
                }
                k = k + 1;
            }
            // the still-answered positions of that group
            let mut poslist: Vec<Position> = Vec::new();
            let mut j: usize = 0;
            proof {
                lemma_groups_sane(&game, bestk as int);
                lemma_wf_positions(&game);
            }
            while j < game.groups[bestk].cells.len()
                invariant
                    game.wf(),
                    bestk < game.groups@.len(),
                    0 <= j <= game.groups@[bestk as int].cells@.len(),
                    game.groups@[bestk as int].members_bound(game.cells@.len() as int),
                    forall|q: int|
                        0 <= q < poslist@.len() ==> game.pos_in_range(#[trigger] poslist@[q])
                            && game.cells@[game.cell_index(
                            poslist@[q].0 as int,
                            poslist@[q].1 as int,
                        )].answer is Some,
                decreases game.groups@[bestk as int].cells@.len() - j,
            {
                let m = game.groups[bestk].cells[j];
                if game.cells[m].answer().is_some() {
                    let p = game.cells[m].pos();
                    proof {
                        lemma_wf_positions(&game);
                        let s = game.side();
                        let mi = m as int;
                        vstd::arithmetic::div_mod::lemma_fundamental_div_mod(mi, s);
                        assert(game.cell_index(p.0 as int, p.1 as int) == mi) by (nonlinear_arith)
                            requires
                                p.0 == mi % s,
                                p.1 == mi / s,
                                mi == s * (mi / s) + mi % s,
                                game.cell_index(p.0 as int, p.1 as int) == p.1 * s + p.0,
                        ;
                    }
                    poslist.push(p);
                }
                j = j + 1;
            }
            if poslist.len() == 0 {
                break ;
            }
            let idx = src.next_index(poslist.len());
            let pos = poslist[idx];
            let mut tmp = game.clone();
            tmp.remove_answer(pos);
            if Self::digging_keeps_solution(&tmp, solved) {
                let ghost before = game;
                let removed = game.remove_answer(pos);
                proof {
                    assert(removed is Some);
                    assert(answers_extend(game, before));
                    lemma_answers_extend_trans(game, before, *solved);
                }
                failures = 0;
            } else {
                failures = failures + 1;
                if failures > side as u16 {
                    break ;
                }
            }
        }
        game
    }

    /// A randomly ordered alphabet, a full solve from the empty grid,
    /// and a shuffle: a random complete grid.  The completeness of the
    /// outcome is checked before it is handed out.
    fn generate_random_solved_game<R: IndexSource>(block_size: BlockSize, src: &mut R) -> (r:
        Option<NormalGame>)
        requires
            1 <= block_size.height,
            1 <= block_size.width,
            block_size.height * block_size.width <= 255,
        ensures
            r matches Some(g) ==> g.wf() && g.setting.block_size == block_size
                && g.status_spec() == GameState::Complete,
            r is Some,
    {
        let setting = GameSetting::new(block_size);
        let mut pool = setting.answer_candidate();
        let mut alphabet: Vec<u8> = Vec::new();
        let ghost sd = setting.side_spec();
        while pool.len() > 0
            invariant
                setting.wf(),
                sd == setting.side_spec(),
                alphabet@.len() + pool@.len() == sd,
                forall|i: int| 0 <= i < pool@.len() ==> 1 <= #[trigger] pool@[i] <= sd,
                forall|i: int| 0 <= i < alphabet@.len() ==> 1 <= #[trigger] alphabet@[i] <= sd,
                crate::normal_game::setting::distinct_seq(pool@),
                crate::normal_game::setting::distinct_seq(alphabet@),
                forall|i: int, j: int|
                    0 <= i < alphabet@.len() && 0 <= j < pool@.len() ==> #[trigger] alphabet@[i]
                        != #[trigger] pool@[j],
            decreases pool@.len(),
        {
            let idx = src.next_index(pool.len());
            let v = pool.remove(idx);
            let ghost pool0 = pool@.insert(idx as int, v);
            alphabet.push(v);
            proof {
                assert(!pool@.contains(v)) by {
                    if pool@.contains(v) {
                        let q = choose|q: int| 0 <= q < pool@.len() && pool@[q] == v;
                        if q < idx {
                            assert(pool0[q] == v && pool0[idx as int] == v);
                        } else {
                            assert(pool0[q + 1] == v && pool0[idx as int] == v);
                        }
                    }
                }
                assert forall|i: int, j: int|
                    0 <= i < alphabet@.len() && 0 <= j < pool@.len() implies #[trigger] alphabet@[i]
                    != #[trigger] pool@[j] by {
                    if j < idx {
                        assert(pool@[j] == pool0[j]);
                    } else {
                        assert(pool@[j] == pool0[j + 1]);
                    }
                }
                assert forall|i: int, j: int| 0 <= i < j < pool@.len() implies pool@[i]
                    != pool@[j] by {
                    let i0 = if i < idx {
                        i
                    } else {
                        i + 1
                    };
                    let j0 = if j < idx {
                        j
                    } else {
                        j + 1
                    };
                    assert(pool@[i] == pool0[i0] && pool@[j] == pool0[j0]);
                }
                assert forall|i: int| 0 <= i < pool@.len() implies 1 <= #[trigger] pool@[i]
                    <= sd by {
                    if i < idx {
                        assert(pool@[i] == pool0[i]);
                    } else {
                        assert(pool@[i] == pool0[i + 1]);
                    }
                }
            }
        }
        let gs = GameSetting::new_with_answer_candidate(block_size, alphabet);
        let game = NormalGame::new(gs);
        let witness = Self::build_cyclic_solved(&game.setting);
        let solver = Solver::new(&game);
        proof {
            let sdi = game.side();
            assert(crate::solver::is_solution_of(witness, solver.game)) by {
                assert(witness.answered_count == witness.side() * witness.side());
                crate::normal_game::lemma_count_answered_bounds(solver.game.cells@);
                assert forall|j: int| 0 <= j < witness.cells@.len() implies (
                #[trigger] witness.cells@[j]).pos == solver.game.cells@[j].pos by {
                    let pw = witness.cells@[j].pos;
                    let pg = solver.game.cells@[j].pos;
                    assert(pw.0 == (j % sdi) as u8 && pw.1 == (j / sdi) as u8);
                    assert(pg.0 == (j % sdi) as u8 && pg.1 == (j / sdi) as u8);
                    assert(pw == Position((j % sdi) as u8, (j / sdi) as u8));
                    assert(pg == Position((j % sdi) as u8, (j / sdi) as u8));
                }
            }
        }
        let r0 = solver.solve();
        match r0 {
            Some(sol) => {
                proof {
                    assert(sol.answered_count == sol.side() * sol.side());
                    crate::normal_game::lemma_count_answered_full(sol.cells@);
                    assert(sol.is_fully_answered());
                    assert(!sol.exists_duplicate());
                }
                let shuffled = sol.shuffle(src);
                let mut sh = shuffled;
                proof {
                    crate::solver::lemma_filled_nodup_complete(&sh);
                }
                let st = sh.check_status();
                match st {
                    GameState::Complete => Some(sh),
                    _ => {
                        proof {
                            assert(false);
                        }
                        None
                    },
                }
            },
            None => {
                proof {
                    assert(false);
                }
                None
            },
        }
    }

    /// Generate a puzzle and its answer key: a random solved grid is
    /// built and then dug out.  The puzzle keeps only answers the key
    /// has.  `None` can only arise when the internal solve of the empty
    /// grid fails, which a sound size configuration never produces.
    pub fn generate<R: IndexSource>(block_size: BlockSize, src: &mut R) -> (r: Option<
        (NormalGame, NormalGame),
    >)
        requires
            1 <= block_size.height,
            1 <= block_size.width,
            block_size.height * block_size.width <= 255,
        ensures
            r matches Some(pair) ==> pair.0.wf() && pair.1.wf() && pair.1.setting.block_size
                == block_size && pair.1.status_spec() == GameState::Complete
                && pair.0.setting.eq_view(&pair.1.setting) && answers_extend(pair.0, pair.1),
            r is Some,
    {
        match Self::generate_random_solved_game(block_size, src) {
            Some(solved) => {
                let puzzle = Self::to_issue(&solved, src);
                Some((puzzle, solved))
            },
            None => {
                proof {
                    assert(false);
                }
                None
            },
        }
    }
}

} // verus!
