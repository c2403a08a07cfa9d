//! Structure-preserving randomization of a solved grid: rows are permuted
//! within each horizontal band, columns within each vertical band, then
//! whole bands of rows and of columns are permuted.  Each step maps a
//! valid solved grid to a valid solved grid.
use vstd::prelude::*;

verus! {

use crate::normal_game::cell::Position;
use crate::normal_game::group;
use crate::normal_game::lemma_group_membership;
use crate::normal_game::lemma_groups_sane;
use crate::normal_game::lemma_member_iff;
use crate::normal_game::lemma_wf_positions;
use crate::normal_game::NormalGame;
use crate::random::IndexSource;

/// `p` is a permutation of `0 .. n`.
pub open spec fn is_perm(p: Seq<u8>, n: int) -> bool {
    &&& p.len() == n
    &&& forall|y: int| 0 <= y < p.len() ==> #[trigger] p[y] < n
    &&& forall|y1: int, y2: int| 0 <= y1 < y2 < p.len() ==> p[y1] != p[y2]
}

/// `p` keeps lines within their original band of `us` lines, or moves
/// whole bands: lines of one band stay together.
pub open spec fn band_compatible(p: Seq<u8>, us: int) -> bool {
    forall|y1: int, y2: int|
        0 <= y1 < p.len() && 0 <= y2 < p.len() && #[trigger] (y1 / us) == #[trigger] (y2 / us)
            ==> p[y1] as int / us == p[y2] as int / us
}

/// Swapping two entries of a permutation leaves a permutation.
proof fn lemma_swap_perm(pp: Seq<u8>, a: int, c: int, n: int)
    requires
        is_perm(pp, n),
        0 <= a < pp.len(),
        0 <= c < pp.len(),
    ensures
        is_perm(pp.update(a, pp[c]).update(c, pp[a]), n),
{
    let q = pp.update(a, pp[c]).update(c, pp[a]);
    assert forall|y1: int, y2: int| 0 <= y1 < y2 < q.len() implies q[y1] != q[y2] by {
        if q[y1] == q[y2] {
            let s1 = if y1 == c {
                a
            } else if y1 == a {
                c
            } else {
                y1
            };
            let s2 = if y2 == c {
                a
            } else if y2 == a {
                c
            } else {
                y2
            };
            assert(q[y1] == pp[s1] && q[y2] == pp[s2]);
            assert(s1 != s2);
            if s1 < s2 {
                assert(pp[s1] != pp[s2]);
            } else {
                assert(pp[s2] != pp[s1]);
            }
        }
    }
}

/// Swapping two entries of one band keeps the permutation
/// band-compatible.
proof fn lemma_swap_band(pp: Seq<u8>, a: int, c: int, us: int)
    requires
        band_compatible(pp, us),
        0 <= a < pp.len(),
        0 <= c < pp.len(),
        a / us == c / us,
    ensures
        band_compatible(pp.update(a, pp[c]).update(c, pp[a]), us),
{
    let q = pp.update(a, pp[c]).update(c, pp[a]);
    assert forall|y1: int, y2: int|
        0 <= y1 < q.len() && 0 <= y2 < q.len() && #[trigger] (y1 / us) == #[trigger] (y2 / us)
            implies q[y1] as int / us == q[y2] as int / us by {
        let s1 = if y1 == c {
            a
        } else if y1 == a {
            c
        } else {
            y1
        };
        let s2 = if y2 == c {
            a
        } else if y2 == a {
            c
        } else {
            y2
        };
        assert(q[y1] == pp[s1] && q[y2] == pp[s2]);
        assert(s1 / us == y1 / us && s2 / us == y2 / us);
        assert(pp[s1] as int / us == pp[s2] as int / us);
    }
}

/// Composing two permutations (first `b`, then `a`) is a permutation.
proof fn lemma_perm_compose(a: Seq<u8>, b: Seq<u8>, n: int)
    requires
        is_perm(a, n),
        is_perm(b, n),
    ensures
        is_perm(Seq::new(n as nat, |y: int| a[b[y] as int]), n),
{
    let q = Seq::new(n as nat, |y: int| a[b[y] as int]);
    assert forall|y1: int, y2: int| 0 <= y1 < y2 < q.len() implies q[y1] != q[y2] by {
        assert(b[y1] != b[y2]);
        if (b[y1] as int) < (b[y2] as int) {
            assert(a[b[y1] as int] != a[b[y2] as int]);
        } else {
            assert(a[b[y2] as int] != a[b[y1] as int]);
        }
    }
}

/// The composition of two band-compatible permutations is itself
/// band-compatible.
proof fn lemma_band_compose(a: Seq<u8>, b: Seq<u8>, n: int, us: int)
    requires
        is_perm(a, n),
        is_perm(b, n),
        band_compatible(a, us),
        band_compatible(b, us),
    ensures
        band_compatible(Seq::new(n as nat, |y: int| a[b[y] as int]), us),
{
    let q = Seq::new(n as nat, |y: int| a[b[y] as int]);
    assert forall|y1: int, y2: int|
        0 <= y1 < q.len() && 0 <= y2 < q.len() && #[trigger] (y1 / us) == #[trigger] (y2 / us)
            implies q[y1] as int / us == q[y2] as int / us by {
        assert(b[y1] as int / us == b[y2] as int / us);
        assert(a[b[y1] as int] as int / us == a[b[y2] as int] as int / us);
    }
}

impl NormalGame {
    /// Every cell holds an answer.
    pub open spec fn is_fully_answered(&self) -> bool {
        forall|i: int| 0 <= i < self.cells@.len() ==> (#[trigger] self.cells@[i]).answer is Some
    }

    /// No two distinct positions of one row, column or block hold the
    /// same answer.
    pub open spec fn no_conflict(&self) -> bool {
        forall|p1: Position, p2: Position|
            self.pos_in_range(p1) && self.pos_in_range(p2) && p1 != p2 && #[trigger] self.same_unit(
                p1,
                p2,
            ) && (#[trigger] self.answer_at(p1.0 as int, p1.1 as int)) is Some ==> self.answer_at(
                p1.0 as int,
                p1.1 as int,
            ) != self.answer_at(p2.0 as int, p2.1 as int)
    }
}

/// Position-level conflicts and group-level duplicates are the same
/// thing on a well-formed grid.
pub proof fn lemma_conflict_iff_duplicate(g: &NormalGame)
    requires
        g.wf(),
    ensures
        g.exists_duplicate() <==> !g.no_conflict(),
{
    let s = g.side();
    let h = g.setting.block_size.height as int;
    let w = g.setting.block_size.width as int;
    lemma_wf_positions(g);
    if g.exists_duplicate() {
        let k = choose|k: int|
            0 <= k < g.groups@.len() && (#[trigger] g.groups@[k]).has_duplicate_answer(g.cells@);
        let gr = g.groups@[k];
        lemma_groups_sane(g, k);
        let (j1, j2) = choose|j1: int, j2: int|
            0 <= j1 < j2 < gr.cells@.len() && (#[trigger] g.cells@[gr.cells@[j1] as int].answer) is Some
                && g.cells@[gr.cells@[j1] as int].answer == (
            #[trigger] g.cells@[gr.cells@[j2] as int].answer);
        let i1 = gr.cells@[j1] as int;
        let i2 = gr.cells@[j2] as int;
        assert(i1 != i2);
        let p1 = g.cells@[i1].pos;
        let p2 = g.cells@[i2].pos;
        vstd::arithmetic::div_mod::lemma_fundamental_div_mod(i1, s);
        vstd::arithmetic::div_mod::lemma_fundamental_div_mod(i2, s);
        assert(p1 != p2);
        lemma_member_iff(g, k, i1);
        lemma_member_iff(g, k, i2);
        assert(gr.is_member(i1)) by {
            assert(gr.cells@[j1] == i1 as usize);
        }
        assert(gr.is_member(i2)) by {
            assert(gr.cells@[j2] == i2 as usize);
        }
        assert(g.same_unit(p1, p2)) by {
            if k == g.row_group_of(p1) {
                assert(p1.1 == p2.1);
            } else if k == g.col_group_of(p1) {
                assert(p1.0 == p2.0);
            } else {
                assert(k == g.block_group_of(p1) && k == g.block_group_of(p2));
                let t1 = p1.1 as int / h;
                let u1 = p1.0 as int / w;
                let t2 = p2.1 as int / h;
                let u2 = p2.0 as int / w;
                let x1 = p1.0 as int;
                let x2 = p2.0 as int;
                assert(0 <= u1 < h && 0 <= u2 < h) by (nonlinear_arith)
                    requires
                        0 <= x1 < h * w,
                        0 <= x2 < h * w,
                        1 <= h,
                        1 <= w,
                        u1 == x1 / w,
                        u2 == x2 / w,
                ;
                assert(t1 * h + u1 == t2 * h + u2);
                vstd::arithmetic::div_mod::lemma_fundamental_div_mod_converse(
                    t1 * h + u1,
                    h,
                    t1,
                    u1,
                );
                vstd::arithmetic::div_mod::lemma_fundamental_div_mod_converse(
                    t2 * h + u2,
                    h,
                    t2,
                    u2,
                );
                assert(t1 == t2 && u1 == u2);
            }
        }
        assert(g.answer_at(p1.0 as int, p1.1 as int) == g.cells@[i1].answer) by {
            assert(g.cell_index(p1.0 as int, p1.1 as int) == i1) by (nonlinear_arith)
                requires
                    p1.0 == i1 % s,
                    p1.1 == i1 / s,
                    i1 == s * (i1 / s) + i1 % s,
                    g.cell_index(p1.0 as int, p1.1 as int) == p1.1 * s + p1.0,
            ;
        }
        assert(g.answer_at(p2.0 as int, p2.1 as int) == g.cells@[i2].answer) by {
            assert(g.cell_index(p2.0 as int, p2.1 as int) == i2) by (nonlinear_arith)
                requires
                    p2.0 == i2 % s,
                    p2.1 == i2 / s,
                    i2 == s * (i2 / s) + i2 % s,
                    g.cell_index(p2.0 as int, p2.1 as int) == p2.1 * s + p2.0,
            ;
        }
        assert(!g.no_conflict());
    }
    if !g.no_conflict() {
        let (p1, p2) = choose|p1: Position, p2: Position|
            g.pos_in_range(p1) && g.pos_in_range(p2) && p1 != p2 && #[trigger] g.same_unit(p1, p2)
                && (#[trigger] g.answer_at(p1.0 as int, p1.1 as int)) is Some && g.answer_at(
                p1.0 as int,
                p1.1 as int,
            ) == g.answer_at(p2.0 as int, p2.1 as int);
        let i1 = g.cell_index(p1.0 as int, p1.1 as int);
        let i2 = g.cell_index(p2.0 as int, p2.1 as int);
        let xx1 = p1.0 as int;
        let yy1 = p1.1 as int;
        let xx2 = p2.0 as int;
        let yy2 = p2.1 as int;
        assert(0 <= i1 < s * s && 0 <= i2 < s * s) by (nonlinear_arith)
            requires
                0 <= xx1 < s,
                0 <= yy1 < s,
                0 <= xx2 < s,
                0 <= yy2 < s,
                i1 == yy1 * s + xx1,
                i2 == yy2 * s + xx2,
        ;
        vstd::arithmetic::div_mod::lemma_fundamental_div_mod_converse(i1, s, p1.1 as int, p1.0 as int);
        vstd::arithmetic::div_mod::lemma_fundamental_div_mod_converse(i2, s, p2.1 as int, p2.0 as int);
        assert(g.cells@[i1].pos == p1);
        assert(g.cells@[i2].pos == p2);
        assert(i1 != i2);
        lemma_group_membership(g, p1, i1);
        lemma_group_membership(g, p1, i2);
        let k = if p1.1 == p2.1 {
            g.row_group_of(p1)
        } else if p1.0 == p2.0 {
            g.col_group_of(p1)
        } else {
            g.block_group_of(p1)
        };
        assert(g.groups@[k].is_member(i1) && g.groups@[k].is_member(i2)) by {
            if p1.1 != p2.1 && p1.0 != p2.0 {
                assert(g.block_group_of(p2) == g.block_group_of(p1));
            }
        }
        let gr = g.groups@[k];
        let j1 = choose|j: int| 0 <= j < gr.cells@.len() && #[trigger] gr.cells@[j] == i1;
        let j2 = choose|j: int| 0 <= j < gr.cells@.len() && #[trigger] gr.cells@[j] == i2;
        assert(j1 != j2);
        if j1 < j2 {
            assert(gr.has_duplicate_answer(g.cells@));
        } else {
            assert(gr.has_duplicate_answer(g.cells@));
        }
        assert(g.exists_duplicate()) by {
            assert(g.groups@[k].has_duplicate_answer(g.cells@));
        }
    }
}

/// Applying a band-compatible permutation to the rows (or columns) of a
/// fully answered, conflict-free grid yields the same kind of grid.
proof fn lemma_perm_keeps_valid(g: &NormalGame, r: &NormalGame, perm: Seq<u8>, rows: bool)
    requires
        g.wf(),
        r.wf(),
        r.setting.eq_view(&g.setting),
        is_perm(perm, g.side()),
        band_compatible(
            perm,
            if rows {
                g.setting.block_size.height as int
            } else {
                g.setting.block_size.width as int
            },
        ),
        forall|x: int, y: int|
            0 <= x < g.side() && 0 <= y < g.side() ==> #[trigger] r.answer_at(x, y) == (if rows {
                g.answer_at(x, perm[y] as int)
            } else {
                g.answer_at(perm[x] as int, y)
            }),
        g.is_fully_answered(),
        g.no_conflict(),
    ensures
        r.is_fully_answered(),
        r.no_conflict(),
{
    let s = g.side();
    lemma_wf_positions(r);
    assert forall|i: int| 0 <= i < r.cells@.len() implies (#[trigger] r.cells@[i]).answer is Some by {
        let p = r.cells@[i].pos;
        vstd::arithmetic::div_mod::lemma_fundamental_div_mod(i, s);
        assert(r.answer_at(p.0 as int, p.1 as int) == r.cells@[i].answer) by (nonlinear_arith)
            requires
                p.0 == i % s,
                p.1 == i / s,
                i == s * (i / s) + i % s,
                r.answer_at(p.0 as int, p.1 as int) == r.cells@[p.1 * s + p.0].answer,
        ;
        let sx = if rows {
            p.0 as int
        } else {
            perm[p.0 as int] as int
        };
        let sy = if rows {
            perm[p.1 as int] as int
        } else {
            p.1 as int
        };
        assert(0 <= g.cell_index(sx, sy) < s * s) by (nonlinear_arith)
            requires 0 <= sx < s, 0 <= sy < s, g.cell_index(sx, sy) == sy * s + sx;
        assert(g.cells@[g.cell_index(sx, sy)].answer is Some);
    }
    assert forall|p1: Position, p2: Position|
        r.pos_in_range(p1) && r.pos_in_range(p2) && p1 != p2 && #[trigger] r.same_unit(p1, p2) && (
        #[trigger] r.answer_at(p1.0 as int, p1.1 as int)) is Some implies r.answer_at(
        p1.0 as int,
        p1.1 as int,
    ) != r.answer_at(p2.0 as int, p2.1 as int) by {
        let h = g.setting.block_size.height as int;
        let w = g.setting.block_size.width as int;
        let q1 = if rows {
            Position(p1.0, perm[p1.1 as int])
        } else {
            Position(perm[p1.0 as int], p1.1)
        };
        let q2 = if rows {
            Position(p2.0, perm[p2.1 as int])
        } else {
            Position(perm[p2.0 as int], p2.1)
        };
        assert(g.pos_in_range(q1) && g.pos_in_range(q2));
        assert(q1 != q2) by {
            if rows {
                if p1.1 == p2.1 {
                    assert(p1.0 != p2.0);
                } else {
                    assert(perm[p1.1 as int] != perm[p2.1 as int]) by {
                        if (p1.1 as int) < (p2.1 as int) {
                        } else {
                            assert(perm[p2.1 as int] != perm[p1.1 as int]);
                        }
                    }
                }
            } else {
                if p1.0 == p2.0 {
                    assert(p1.1 != p2.1);
                } else {
                    assert(perm[p1.0 as int] != perm[p2.0 as int]) by {
                        if (p1.0 as int) < (p2.0 as int) {
                        } else {
                            assert(perm[p2.0 as int] != perm[p1.0 as int]);
                        }
                    }
                }
            }
        }
        assert(g.same_unit(q1, q2)) by {
            if p1.1 == p2.1 {
                if rows {
                    assert(q1.1 == q2.1);
                } else {
                    assert(q1.1 == q2.1);
                }
            } else if p1.0 == p2.0 {
                if rows {
                    assert(q1.0 == q2.0);
                } else {
                    assert(q1.0 == q2.0);
                }
            } else {
                assert(p1.1 as int / h == p2.1 as int / h && p1.0 as int / w == p2.0 as int / w);
                if rows {
                    assert(q1.1 as int / h == q2.1 as int / h);
                    assert(q1.0 as int / w == q2.0 as int / w);
                } else {
                    assert(q1.0 as int / w == q2.0 as int / w);
                    assert(q1.1 as int / h == q2.1 as int / h);
                }
            }
        }
        assert(r.answer_at(p1.0 as int, p1.1 as int) == g.answer_at(q1.0 as int, q1.1 as int));
        assert(r.answer_at(p2.0 as int, p2.1 as int) == g.answer_at(q2.0 as int, q2.1 as int));
        assert(g.answer_at(q1.0 as int, q1.1 as int) != g.answer_at(q2.0 as int, q2.1 as int));
    }
}

impl NormalGame {
    /// A copy of the grid whose row `y` (or column `x`, when `rows` is
    /// false) shows what row `perm[y]` (column `perm[x]`) showed before.
    pub(crate) fn apply_perm(&self, perm: &Vec<u8>, rows: bool) -> (r: NormalGame)
        requires
            self.wf(),
            is_perm(perm@, self.side()),
        ensures
            r.wf(),
            r.sound(),
            r.setting.eq_view(&self.setting),
            forall|x: int, y: int|
                0 <= x < self.side() && 0 <= y < self.side() ==> #[trigger] r.answer_at(x, y) == (
                if rows {
                    self.answer_at(x, perm@[y] as int)
                } else {
                    self.answer_at(perm@[x] as int, y)
                }),
    {
        let side = self.setting.side_size();
        let mut ng = crate::normal_game::NormalGame::new(self.setting.clone());
        proof {
            assert forall|x2: int, y2: int|
                0 <= x2 < self.side() && 0 <= y2 < self.side() implies (#[trigger] ng.answer_at(
                x2,
                y2,
            )) is None by {
                let sdi = self.side();
                assert(0 <= y2 * sdi + x2 < sdi * sdi) by (nonlinear_arith)
                    requires 0 <= x2 < sdi, 0 <= y2 < sdi;
            }
        }
        let mut y: u8 = 0;
        while y < side
            invariant
                self.wf(),
                ng.wf(),
                ng.sound(),
                ng.setting.eq_view(&self.setting),
                is_perm(perm@, self.side()),
                side == self.side(),
                ng.side() == self.side(),
                ng.cells@.len() == self.cells@.len(),
                0 <= y <= side,
                forall|x2: int, y2: int|
                    0 <= x2 < self.side() && 0 <= y2 < self.side() ==> #[trigger] ng.answer_at(
                        x2,
                        y2,
                    ) == (if y2 < y {
                        if rows {
                            self.answer_at(x2, perm@[y2] as int)
                        } else {
                            self.answer_at(perm@[x2] as int, y2)
                        }
                    } else {
                        None
                    }),
            decreases side - y,
        {
            let mut x: u8 = 0;
            while x < side
                invariant
                    self.wf(),
                    ng.wf(),
                    ng.sound(),
                    ng.setting.eq_view(&self.setting),
                    is_perm(perm@, self.side()),
                    side == self.side(),
                    ng.side() == self.side(),
                    ng.cells@.len() == self.cells@.len(),
                    0 <= y < side,
                    0 <= x <= side,
                    forall|x2: int, y2: int|
                        0 <= x2 < self.side() && 0 <= y2 < self.side() ==> #[trigger] ng.answer_at(
                            x2,
                            y2,
                        ) == (if y2 < y || (y2 == y && x2 < x) {
                            if rows {
                                self.answer_at(x2, perm@[y2] as int)
                            } else {
                                self.answer_at(perm@[x2] as int, y2)
                            }
                        } else {
                            None
                        }),
                decreases side - x,
            {
                let sx: u8 = if rows {
                    x
                } else {
                    perm[x as usize]
                };
                let sy: u8 = if rows {
                    perm[y as usize]
                } else {
                    y
                };
                proof {
                    let sdi = side as int;
                    assert((sy as int) * sdi + (sx as int) < sdi * sdi) by (nonlinear_arith)
                        requires 0 <= (sy as int) < sdi, 0 <= (sx as int) < sdi;
                    assert((y as int) * sdi + (x as int) < sdi * sdi) by (nonlinear_arith)
                        requires 0 <= (y as int) < sdi, 0 <= (x as int) < sdi;
                    assert(sdi * sdi <= 65025) by (nonlinear_arith)
                        requires 0 <= sdi <= 255;
                }
                let si: usize = sy as usize * side as usize + sx as usize;
                let ghost png = ng;
                proof {
                    assert(ng.answer_at(x as int, y as int) is None);
                }
                match self.cells[si].answer() {
                    Some(v) => {
                        proof {
                            assert(1 <= v <= self.side()) by {
                                assert(self.cells@[si as int].wf(self.side()));
                            }
                        }
                        ng.set_answer(Position::new(x, y), v);
                        proof {
                            crate::normal_game::lemma_set_answer_sound(
                                &png,
                                &ng,
                                Position(x, y),
                                v,
                            );
                        }
                    },
                    None => {},
                }
                proof {
                    let sdi = side as int;
                    let ii = png.cell_index(x as int, y as int);
                    assert(0 <= ii < sdi * sdi) by (nonlinear_arith)
                        requires
                            0 <= (x as int) < sdi,
                            0 <= (y as int) < sdi,
                            ii == (y as int) * sdi + (x as int),
                    ;
                    assert(self.answer_at(sx as int, sy as int) == self.cells@[si as int].answer)
                        by {
                        assert(self.cell_index(sx as int, sy as int) == si as int);
                    }
                    assert forall|x2: int, y2: int|
                        0 <= x2 < self.side() && 0 <= y2 < self.side() implies #[trigger] ng.answer_at(
                        x2,
                        y2,
                    ) == (if y2 < y as int || (y2 == y as int && x2 < x as int + 1) {
                        if rows {
                            self.answer_at(x2, perm@[y2] as int)
                        } else {
                            self.answer_at(perm@[x2] as int, y2)
                        }
                    } else {
                        None
                    }) by {
                        assert(0 <= ng.cell_index(x2, y2) < sdi * sdi) by (nonlinear_arith)
                            requires
                                0 <= x2 < sdi,
                                0 <= y2 < sdi,
                                ng.cell_index(x2, y2) == y2 * sdi + x2,
                        ;
                        assert(ng.cell_index(x2, y2) == png.cell_index(x2, y2));
                        assert(png.answer_at(x2, y2) == png.cells@[png.cell_index(x2, y2)].answer);
                        if x2 == x as int && y2 == y as int {
                            match self.cells@[si as int].answer {
                                Some(v2) => {
                                    assert(png.set_answer_filled(ng, Position(x, y), v2));
                                    assert(ng.cells@[ii].answer == Some(v2));
                                },
                                None => {
                                    assert(ng == png);
                                },
                            }
                        } else {
                            assert(ng.cell_index(x2, y2) != ii) by (nonlinear_arith)
                                requires
                                    0 <= x2 < sdi,
                                    0 <= y2 < sdi,
                                    0 <= (x as int) < sdi,
                                    0 <= (y as int) < sdi,
                                    !(x2 == x as int && y2 == y as int),
                                    ng.cell_index(x2, y2) == y2 * sdi + x2,
                                    ii == (y as int) * sdi + (x as int),
                            ;
                            if png.cells@[ii].answer is None && self.cells@[si as int].answer is Some {
                                assert(ng.cells@[ng.cell_index(x2, y2)].answer == png.cells@[png.cell_index(x2, y2)].answer);
                            } else {
                                assert(ng == png);
                            }
                        }
                    }
                }
                x = x + 1;
            }
            y = y + 1;
        }
        ng
    }
}

/// A permutation of `0 .. units * unit_size` that permutes positions
/// within each consecutive band of `unit_size`, leaving every element in
/// its own band.
fn make_within_band_perm<R: IndexSource>(src: &mut R, units: u8, unit_size: u8) -> (r: Vec<u8>)
    requires
        1 <= units,
        1 <= unit_size,
        units * unit_size <= 255,
    ensures
        is_perm(r@, units * unit_size),
        band_compatible(r@, unit_size as int),
{
    let n: u8 = units * unit_size;
    let mut p: Vec<u8> = Vec::new();
    let mut i: u8 = 0;
    while i < n
        invariant
            0 <= i <= n,
            p@.len() == i,
            forall|y: int| 0 <= y < p@.len() ==> #[trigger] p@[y] == y,
        decreases n - i,
    {
        p.push(i);
        i = i + 1;
    }
    proof {
        assert forall|y1: int, y2: int|
            0 <= y1 < p@.len() && 0 <= y2 < p@.len() && #[trigger] (y1 / unit_size as int)
                == #[trigger] (y2 / unit_size as int) implies p@[y1] as int / unit_size as int
            == p@[y2] as int / unit_size as int by {}
    }
    let mut b: u8 = 0;
    while b < units
        invariant
            0 <= b <= units,
            n == units * unit_size,
            1 <= unit_size,
            n <= 255,
            is_perm(p@, n as int),
            band_compatible(p@, unit_size as int),
        decreases units - b,
    {
        proof {
            assert((b as int) * (unit_size as int) + (unit_size as int) <= n) by (nonlinear_arith)
                requires
                    0 <= (b as int) < (units as int),
                    n == (units as int) * (unit_size as int),
                    1 <= unit_size as int,
            ;
            assert(0 <= (b as int) * (unit_size as int)) by (nonlinear_arith)
                requires 0 <= (b as int), 0 <= (unit_size as int);
        }
        let base: u8 = b * unit_size;
        let mut i2: u8 = 0;
        while i2 < unit_size
            invariant
                0 <= i2 <= unit_size,
                base == b * unit_size,
                base + unit_size <= n,
                n == units * unit_size,
                1 <= unit_size,
                is_perm(p@, n as int),
                band_compatible(p@, unit_size as int),
            decreases unit_size - i2,
        {
            let pick = src.next_index((unit_size - i2) as usize);
            let a: usize = (base + i2) as usize;
            let c: usize = (base + i2) as usize + pick;
            let ghost pp = p@;
            let va = p[a];
            let vc = p[c];
            p.set(a, vc);
            p.set(c, va);
            proof {
                let us = unit_size as int;
                assert(p@ =~= pp.update(a as int, pp[c as int]).update(c as int, pp[a as int]));
                assert(a as int / us == c as int / us) by (nonlinear_arith)
                    requires
                        a == base + i2,
                        c as int == base + i2 + pick,
                        base == (b as int) * us,
                        0 <= i2 as int,
                        (i2 as int) + pick < us,
                        1 <= us,
                        0 <= pick,
                ;
                lemma_swap_perm(pp, a as int, c as int, n as int);
                lemma_swap_band(pp, a as int, c as int, us);
            }
            i2 = i2 + 1;
        }
        b = b + 1;
    }
    p
}

/// A permutation of `0 .. units * unit_size` that moves whole bands of
/// `unit_size` consecutive positions as units.
fn make_band_move_perm<R: IndexSource>(src: &mut R, units: u8, unit_size: u8) -> (r: Vec<u8>)
    requires
        1 <= units,
        1 <= unit_size,
        units * unit_size <= 255,
    ensures
        is_perm(r@, units * unit_size),
        band_compatible(r@, unit_size as int),
{
    // first a permutation of the bands themselves
    let mut bp: Vec<u8> = Vec::new();
    let mut i: u8 = 0;
    while i < units
        invariant
            0 <= i <= units,
            bp@.len() == i,
            forall|y: int| 0 <= y < bp@.len() ==> #[trigger] bp@[y] == y,
        decreases units - i,
    {
        bp.push(i);
        i = i + 1;
    }
    let mut i2: u8 = 0;
    while i2 < units
        invariant
            0 <= i2 <= units,
            is_perm(bp@, units as int),
        decreases units - i2,
    {
        let pick = src.next_index((units - i2) as usize);
        let a: usize = i2 as usize;
        let c: usize = i2 as usize + pick;
        let ghost pp = bp@;
        let va = bp[a];
        let vc = bp[c];
        bp.set(a, vc);
        bp.set(c, va);
        proof {
            assert(bp@ =~= pp.update(a as int, pp[c as int]).update(c as int, pp[a as int]));
            lemma_swap_perm(pp, a as int, c as int, units as int);
        }
        i2 = i2 + 1;
    }
    // then its lift to single lines
    let n: u8 = units * unit_size;
    let mut p: Vec<u8> = Vec::new();
    let mut y: u8 = 0;
    while y < n
        invariant
            0 <= y <= n,
            n == units * unit_size,
            1 <= unit_size,
            1 <= units,
            n <= 255,
            is_perm(bp@, units as int),
            p@.len() == y,
            forall|q: int|
                0 <= q < p@.len() ==> #[trigger] p@[q] as int == bp@[q / unit_size as int] as int
                    * unit_size as int + q % unit_size as int,
        decreases n - y,
    {
        proof {
            let us = unit_size as int;
            let yi = y as int;
            vstd::arithmetic::div_mod::lemma_mod_bound(yi, us);
            assert(0 <= yi / us < units as int) by (nonlinear_arith)
                requires 0 <= yi < (units as int) * us, 1 <= us, 1 <= units as int;
            assert((bp@[yi / us] as int) * us + yi % us < n) by (nonlinear_arith)
                requires
                    bp@[yi / us] as int <= (units as int) - 1,
                    0 <= bp@[yi / us] as int,
                    0 <= yi % us < us,
                    n == (units as int) * us,
            ;
            assert(0 <= (bp@[yi / us] as int) * us) by (nonlinear_arith)
                requires 0 <= bp@[yi / us] as int, 0 <= us;
        }
        let band: u8 = bp[(y / unit_size) as usize];
        p.push(band * unit_size + y % unit_size);
        y = y + 1;
    }
    proof {
        let us = unit_size as int;
        assert forall|q: int| 0 <= q < p@.len() implies #[trigger] p@[q] < n by {
            vstd::arithmetic::div_mod::lemma_mod_bound(q, us);
            assert(0 <= q / us < units as int) by (nonlinear_arith)
                requires 0 <= q < (units as int) * us, 1 <= us, 1 <= units as int;
            assert((p@[q] as int) < n as int) by (nonlinear_arith)
                requires
                    p@[q] as int == bp@[q / us] as int * us + q % us,
                    bp@[q / us] as int <= (units as int) - 1,
                    0 <= q % us < us,
                    n as int == (units as int) * us,
            ;
        }
        assert forall|y1: int, y2: int| 0 <= y1 < y2 < p@.len() implies p@[y1] != p@[y2] by {
            vstd::arithmetic::div_mod::lemma_mod_bound(y1, us);
            vstd::arithmetic::div_mod::lemma_mod_bound(y2, us);
            assert(0 <= y1 / us < units as int) by (nonlinear_arith)
                requires 0 <= y1 < (units as int) * us, 1 <= us, 1 <= units as int;
            assert(0 <= y2 / us < units as int) by (nonlinear_arith)
                requires 0 <= y2 < (units as int) * us, 1 <= us, 1 <= units as int;
            if y1 / us == y2 / us {
                vstd::arithmetic::div_mod::lemma_fundamental_div_mod(y1, us);
                vstd::arithmetic::div_mod::lemma_fundamental_div_mod(y2, us);
                assert(y1 % us != y2 % us) by (nonlinear_arith)
                    requires
                        y1 != y2,
                        y1 == us * (y1 / us) + y1 % us,
                        y2 == us * (y2 / us) + y2 % us,
                        y1 / us == y2 / us,
                ;
                assert(p@[y1] != p@[y2]);
            } else {
                assert(bp@[y1 / us] != bp@[y2 / us]) by {
                    if y1 / us < y2 / us {
                    } else {
                        assert(y2 / us <= y1 / us);
                        vstd::arithmetic::div_mod::lemma_div_is_ordered(y1, y2, us);
                        assert(bp@[y2 / us] != bp@[y1 / us]);
                    }
                }
                assert(p@[y1] as int / us == bp@[y1 / us] as int) by (nonlinear_arith)
                    requires
                        p@[y1] as int == bp@[y1 / us] as int * us + y1 % us,
                        0 <= y1 % us < us,
                        1 <= us,
                        0 <= bp@[y1 / us] as int,
                ;
                assert(p@[y2] as int / us == bp@[y2 / us] as int) by (nonlinear_arith)
                    requires
                        p@[y2] as int == bp@[y2 / us] as int * us + y2 % us,
                        0 <= y2 % us < us,
                        1 <= us,
                        0 <= bp@[y2 / us] as int,
                ;
            }
        }
        assert forall|y1: int, y2: int|
            0 <= y1 < p@.len() && 0 <= y2 < p@.len() && #[trigger] (y1 / us) == #[trigger] (y2
                / us) implies p@[y1] as int / us == p@[y2] as int / us by {
            vstd::arithmetic::div_mod::lemma_mod_bound(y1, us);
            vstd::arithmetic::div_mod::lemma_mod_bound(y2, us);
            assert(0 <= y1 / us < units as int) by (nonlinear_arith)
                requires 0 <= y1 < (units as int) * us, 1 <= us, 1 <= units as int;
            assert(0 <= y2 / us < units as int) by (nonlinear_arith)
                requires 0 <= y2 < (units as int) * us, 1 <= us, 1 <= units as int;
            assert(p@[y1] as int / us == bp@[y1 / us] as int) by (nonlinear_arith)
                requires
                    p@[y1] as int == bp@[y1 / us] as int * us + y1 % us,
                    0 <= y1 % us < us,
                    1 <= us,
                    0 <= bp@[y1 / us] as int,
            ;
            assert(p@[y2] as int / us == bp@[y2 / us] as int) by (nonlinear_arith)
                requires
                    p@[y2] as int == bp@[y2 / us] as int * us + y2 % us,
                    0 <= y2 % us < us,
                    1 <= us,
                    0 <= bp@[y2 / us] as int,
            ;
        }
    }
    p
}

impl NormalGame {
    /// The four structure-preserving permutations in sequence: rows
    /// within bands, columns within bands, row bands, column bands.  A
    /// fully answered grid without duplicates comes out fully answered
    /// and without duplicates.
    pub fn shuffle<R: IndexSource>(&self, src: &mut R) -> (r: NormalGame)
        requires
            self.wf(),
        ensures
            r.wf(),
            r.sound(),
            r.setting.eq_view(&self.setting),
            self.is_fully_answered() && !self.exists_duplicate() ==> r.is_fully_answered()
                && !r.exists_duplicate(),
            exists|rm: Seq<u8>, cm: Seq<u8>|
                #![trigger is_perm(rm, self.side()), is_perm(cm, self.side())]
                is_perm(rm, self.side()) && is_perm(cm, self.side()) && band_compatible(
                    rm,
                    self.setting.block_size.height as int,
                ) && band_compatible(cm, self.setting.block_size.width as int) && forall|
                    x: int,
                    y: int,
                |
                    0 <= x < self.side() && 0 <= y < self.side() ==> #[trigger] r.answer_at(x, y)
                        == self.answer_at(cm[x] as int, rm[y] as int),
    {
        let h = self.setting.block_height();
        let w = self.setting.block_width();
        proof {
            assert((w as int) * (h as int) == (h as int) * (w as int)) by (nonlinear_arith);
            lemma_conflict_iff_duplicate(self);
        }
        let p1 = make_within_band_perm(src, w, h);
        let g1 = self.apply_perm(&p1, true);
        let p2 = make_within_band_perm(src, h, w);
        let g2 = g1.apply_perm(&p2, false);
        let p3 = make_band_move_perm(src, w, h);
        let g3 = g2.apply_perm(&p3, true);
        let p4 = make_band_move_perm(src, h, w);
        let g4 = g3.apply_perm(&p4, false);
        proof {
            if self.is_fully_answered() && !self.exists_duplicate() {
                lemma_perm_keeps_valid(self, &g1, p1@, true);
                lemma_perm_keeps_valid(&g1, &g2, p2@, false);
                lemma_perm_keeps_valid(&g2, &g3, p3@, true);
                lemma_perm_keeps_valid(&g3, &g4, p4@, false);
                lemma_conflict_iff_duplicate(&g4);
            }
            let sd = self.side();
            let rm = Seq::new(sd as nat, |y: int| p1@[p3@[y] as int]);
            let cm = Seq::new(sd as nat, |x: int| p2@[p4@[x] as int]);
            lemma_perm_compose(p1@, p3@, sd);
            lemma_perm_compose(p2@, p4@, sd);
            lemma_band_compose(p1@, p3@, sd, h as int);
            lemma_band_compose(p2@, p4@, sd, w as int);
            assert(is_perm(rm, sd) && is_perm(cm, sd));
            assert(band_compatible(rm, h as int) && band_compatible(cm, w as int));
            assert forall|x: int, y: int| 0 <= x < sd && 0 <= y < sd implies #[trigger] g4.answer_at(
                x,
                y,
            ) == self.answer_at(cm[x] as int, rm[y] as int) by {
                assert(g4.answer_at(x, y) == g3.answer_at(p4@[x] as int, y));
                assert(g3.answer_at(p4@[x] as int, y) == g2.answer_at(
                    p4@[x] as int,
                    p3@[y] as int,
                ));
                assert(g2.answer_at(p4@[x] as int, p3@[y] as int) == g1.answer_at(
                    p2@[p4@[x] as int] as int,
                    p3@[y] as int,
                ));
                assert(g1.answer_at(p2@[p4@[x] as int] as int, p3@[y] as int) == self.answer_at(
                    p2@[p4@[x] as int] as int,
                    p1@[p3@[y] as int] as int,
                ));
            }
        }
        g4
    }
}

} // verus!
