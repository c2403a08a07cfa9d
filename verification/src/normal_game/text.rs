//! The text boundary: rendering the grid's answers row by row, and
//! seeding a grid from such a text.  Rows are separated by `|` (or a
//! newline), cells within a row by nothing or by commas; an unanswered
//! cell shows as a space.
use vstd::prelude::*;

verus! {

use crate::normal_game::cell::Position;
use crate::normal_game::NormalGame;

/// The decimal digit character for `d`.
pub open spec fn digit_char(d: int) -> char {
    ((48 + d) as u8) as char
}

/// The decimal text of `n`.
pub open spec fn dec_u8(n: int) -> Seq<char>
    decreases n,
{
    if n < 10 {
        seq![digit_char(n)]
    } else {
        dec_u8(n / 10).push(digit_char(n % 10))
    }
}

/// What one cell renders as: its answer in decimal, or one space.
pub open spec fn cell_text(g: NormalGame, x: int, y: int) -> Seq<char> {
    match g.answer_at(x, y) {
        Some(a) => dec_u8(a as int),
        None => seq![' '],
    }
}

/// The first `x` cells of row `y`, commas between cells when asked.
pub open spec fn row_text(g: NormalGame, y: int, comma: bool, x: int) -> Seq<char>
    decreases x,
{
    if x <= 0 {
        Seq::empty()
    } else {
        row_text(g, y, comma, x - 1) + (if comma && x > 1 {
            seq![',']
        } else {
            Seq::empty()
        }) + cell_text(g, x - 1, y)
    }
}

/// The first `y` rows, joined by `sep`.
pub open spec fn grid_text(g: NormalGame, comma: bool, sep: char, y: int) -> Seq<char>
    decreases y,
{
    if y <= 0 {
        Seq::empty()
    } else {
        grid_text(g, comma, sep, y - 1) + (if y > 1 {
            seq![sep]
        } else {
            Seq::empty()
        }) + row_text(g, y - 1, comma, g.side())
    }
}

/// Index of the first `stop` character in `[from, upto)`, or `upto`.
pub open spec fn scan_to(s: Seq<char>, from: int, upto: int, stop: char) -> int
    decreases upto - from,
{
    if from >= upto {
        upto
    } else if s[from] == stop {
        from
    } else {
        scan_to(s, from + 1, upto, stop)
    }
}

/// Where row `y` of the text begins: one past the previous row's `|`.
pub open spec fn row_start_spec(s: Seq<char>, y: int) -> int
    decreases y,
{
    if y <= 0 {
        0
    } else {
        let p = row_start_spec(s, y - 1);
        let e = scan_to(s, p, s.len() as int, '|');
        if e < s.len() {
            e + 1
        } else {
            e
        }
    }
}

/// Whether the row `[a, b)` holds a comma, which switches it to
/// comma-delimited tokens.
pub open spec fn has_comma_in(s: Seq<char>, a: int, b: int) -> bool {
    exists|i: int| a <= i < b && s[i] == ','
}

/// Where token `x` of the comma-delimited row `[a, b)` begins.
pub open spec fn tok_start_spec(s: Seq<char>, a: int, b: int, x: int) -> int
    decreases x,
{
    if x <= 0 {
        a
    } else {
        let p = tok_start_spec(s, a, b, x - 1);
        let e = scan_to(s, p, b, ',');
        if e < b {
            e + 1
        } else {
            b
        }
    }
}

/// The decimal scan of `[a, b)` with accumulator `acc`: the value read
/// so far and whether every character was a digit and no overflow guard
/// tripped.
pub open spec fn parse_value(s: Seq<char>, a: int, b: int, acc: int, ok: bool) -> (int, bool)
    decreases b - a,
{
    if a >= b {
        (acc, ok)
    } else {
        let cu = s[a] as u32;
        if 48 <= cu && cu <= 57 && acc <= 25 {
            parse_value(s, a + 1, b, acc * 10 + (cu - 48), ok)
        } else {
            parse_value(s, a + 1, b, acc, false)
        }
    }
}

/// The symbol a token `[a, b)` seeds at `(x, y)`: its decimal value,
/// provided the token is a well-formed number and value and coordinates
/// are on the grid.
pub open spec fn token_seeds(s: Seq<char>, a: int, b: int, side: int, x: int, y: int) -> Option<
    u8,
> {
    let (v, ok) = parse_value(s, a, b, 0, b > a);
    if ok && 1 <= v && v <= side && 0 <= x < side && 0 <= y < side {
        Some(v as u8)
    } else {
        None
    }
}

/// The symbol the whole text seeds at `(x, y)`, if any: rows split on
/// `|`, each row comma-split when it holds a comma and split into single
/// characters otherwise.
pub open spec fn seeded(s: Seq<char>, side: int, x: int, y: int) -> Option<u8> {
    let rs = row_start_spec(s, y);
    if rs >= s.len() || y < 0 || x < 0 {
        None
    } else {
        let re = scan_to(s, rs, s.len() as int, '|');
        if has_comma_in(s, rs, re) {
            let ts = tok_start_spec(s, rs, re, x);
            if ts >= re {
                None
            } else {
                token_seeds(s, ts, scan_to(s, ts, re, ','), side, x, y)
            }
        } else {
            if rs + x >= re {
                None
            } else {
                token_seeds(s, rs + x, rs + x + 1, side, x, y)
            }
        }
    }
}

/// Scanning never steps backwards and stops by `upto`.
pub proof fn lemma_scan_to_bounds(s: Seq<char>, from: int, upto: int, stop: char)
    ensures
        from <= upto ==> from <= scan_to(s, from, upto, stop) <= upto,
    decreases upto - from,
{
    if from < upto && s[from] != stop {
        lemma_scan_to_bounds(s, from + 1, upto, stop);
    }
}

/// Row starts never decrease with the row number.
pub proof fn lemma_row_start_monotone(s: Seq<char>, y1: int, y2: int)
    requires
        0 <= y1 <= y2,
    ensures
        row_start_spec(s, y1) <= row_start_spec(s, y2),
        0 <= row_start_spec(s, y1),
    decreases y2 - y1 + y1,
{
    if y1 > 0 {
        lemma_row_start_monotone(s, y1 - 1, y1 - 1);
        lemma_scan_to_bounds(s, row_start_spec(s, y1 - 1), s.len() as int, '|');
    }
    if y1 < y2 {
        lemma_row_start_monotone(s, y1, y2 - 1);
        lemma_scan_to_bounds(s, row_start_spec(s, y2 - 1), s.len() as int, '|');
    }
}

/// Token starts never decrease with the token number.
pub proof fn lemma_tok_start_monotone(s: Seq<char>, a: int, b: int, x1: int, x2: int)
    requires
        0 <= x1 <= x2,
        a <= b,
    ensures
        tok_start_spec(s, a, b, x1) <= tok_start_spec(s, a, b, x2),
        a <= tok_start_spec(s, a, b, x1),
    decreases x2 - x1 + x1,
{
    if x1 > 0 {
        lemma_tok_start_monotone(s, a, b, x1 - 1, x1 - 1);
        lemma_scan_to_bounds(s, tok_start_spec(s, a, b, x1 - 1), b, ',');
    }
    if x1 < x2 {
        lemma_tok_start_monotone(s, a, b, x1, x2 - 1);
        lemma_scan_to_bounds(s, tok_start_spec(s, a, b, x2 - 1), b, ',');
    }
}

/// Relies on String::push: appends exactly the one character.
#[verifier::external_body]
pub(crate) fn push_char(s: &mut String, c: char)
    ensures
        final(s)@ == old(s)@.push(c),
{
    s.push(c);
}

/// Appends the decimal text of `n`.
pub(crate) fn push_u8_decimal(s: &mut String, n: u8)
    ensures
        final(s)@ == old(s)@ + dec_u8(n as int),
{
    let ghost n0 = n as int;
    proof {
        reveal_with_fuel(dec_u8, 4);
    }
    if n >= 100 {
        proof {
            vstd::arithmetic::div_mod::lemma_div_denominator(n0, 10, 10);
            vstd::arithmetic::div_mod::lemma_mod_bound(n0 / 10, 10);
            assert(0 < n0 / 100 < 10) by (nonlinear_arith)
                requires 100 <= n0 <= 255;
            assert(10 <= n0 / 10) by (nonlinear_arith)
                requires 100 <= n0 <= 255;
            assert(dec_u8(n0 / 10) == dec_u8(n0 / 100).push(digit_char((n0 / 10) % 10)));
        }
        push_char(s, (48 + n / 100) as char);
        push_char(s, (48 + (n / 10) % 10) as char);
        push_char(s, (48 + n % 10) as char);
        proof {
            assert(s@ =~= old(s)@ + dec_u8(n0));
        }
    } else if n >= 10 {
        proof {
            assert(n0 / 10 < 10) by (nonlinear_arith)
                requires 10 <= n0 < 100;
            assert(0 < n0 / 10) by (nonlinear_arith)
                requires 10 <= n0 < 100;
        }
        push_char(s, (48 + n / 10) as char);
        push_char(s, (48 + n % 10) as char);
        proof {
            assert(s@ =~= old(s)@ + dec_u8(n0));
        }
    } else {
        push_char(s, (48 + n) as char);
        proof {
            assert(s@ =~= old(s)@ + dec_u8(n0));
        }
    }
}

impl NormalGame {
    /// The answers, row-major: rows joined by `sep`, cells joined by a
    /// comma when `comma` is set, a space for an open cell.
    fn render(&self, comma: bool, sep: char) -> (r: String)
        requires
            self.wf(),
        ensures
            r@ == grid_text(*self, comma, sep, self.side()),
    {
        let side = self.setting.side_size();
        let mut s = String::new();
        let mut y: u8 = 0;
        while y < side
            invariant
                self.wf(),
                side == self.side(),
                0 <= y <= side,
                s@ == grid_text(*self, comma, sep, y as int),
            decreases side - y,
        {
            if y > 0 {
                push_char(&mut s, sep);
            }
            let mut x: u8 = 0;
            let ghost srow = s@;
            while x < side
                invariant
                    self.wf(),
                    side == self.side(),
                    0 <= y < side,
                    0 <= x <= side,
                    s@ == srow + row_text(*self, y as int, comma, x as int),
                decreases side - x,
            {
                if x > 0 && comma {
                    push_char(&mut s, ',');
                }
                proof {
                    let sdi = side as int;
                    assert((y as int) * sdi + (x as int) < sdi * sdi) by (nonlinear_arith)
                        requires 0 <= (y as int) < sdi, 0 <= (x as int) < sdi;
                    assert(sdi * sdi <= 65025) by (nonlinear_arith)
                        requires 0 <= sdi <= 255;
                }
                let i: usize = y as usize * side as usize + x as usize;
                match self.cells[i].answer() {
                    Some(a) => {
                        push_u8_decimal(&mut s, a);
                    },
                    None => {
                        push_char(&mut s, ' ');
                    },
                }
                proof {
                    assert(s@ =~= srow + row_text(*self, y as int, comma, x as int + 1));
                }
                x = x + 1;
            }
            proof {
                assert(s@ =~= grid_text(*self, comma, sep, y as int + 1));
            }
            y = y + 1;
        }
        s
    }

    /// One character per cell, rows joined by `|`.
    pub fn to_string(&self) -> (r: String)
        requires
            self.wf(),
        ensures
            r@ == grid_text(*self, false, '|', self.side()),
    {
        self.render(false, '|')
    }

    /// Cells joined by commas, rows joined by `|`.
    pub fn to_string_with_comma(&self) -> (r: String)
        requires
            self.wf(),
        ensures
            r@ == grid_text(*self, true, '|', self.side()),
    {
        self.render(true, '|')
    }

    /// Cells joined by commas, rows joined by newlines.
    pub fn to_string_with_newline(&self) -> (r: String)
        requires
            self.wf(),
        ensures
            r@ == grid_text(*self, true, '\n', self.side()),
    {
        self.render(true, '\n')
    }

    /// Seeds answers from a row-delimited text such as
    /// `" 7  6|6   3|..."` (one character per cell) or `"1, ,3|..."`
    /// (comma-delimited cells): every well-formed numeric token on the
    /// grid is assigned at its coordinates, with full propagation, and
    /// everything else is passed over.
    pub fn load(&mut self, issue: &str)
        requires
            old(self).wf(),
        ensures
            final(self).wf(),
            final(self).setting == old(self).setting,
            crate::normal_game::answers_extend(*old(self), *final(self)),
            forall|x2: int, y2: int|
                0 <= x2 < old(self).side() && 0 <= y2 < old(self).side()
                    ==> #[trigger] final(self).cells@[old(self).cell_index(x2, y2)].answer == (
                if old(self).cells@[old(self).cell_index(x2, y2)].answer is Some {
                    old(self).cells@[old(self).cell_index(x2, y2)].answer
                } else {
                    seeded(issue@, old(self).side(), x2, y2)
                }),
    {
        let n = issue.unicode_len();
        let mut chars: Vec<char> = Vec::new();
        let mut ci: usize = 0;
        while ci < n
            invariant
                n == issue@.len(),
                0 <= ci <= n,
                chars@.len() == ci,
                forall|i: int| 0 <= i < ci ==> #[trigger] chars@[i] == issue@[i],
            decreases n - ci,
        {
            chars.push(issue.get_char(ci));
            ci = ci + 1;
        }
        proof {
            assert(chars@ =~= issue@);
        }
        let side = self.setting.side_size();
        let ghost pre = *self;
        let ghost sdi = pre.side();
        let mut row_start: usize = 0;
        let mut y: usize = 0;
        while row_start < chars.len()
            invariant
                chars@ == issue@,
                self.wf(),
                self.setting == pre.setting,
                crate::normal_game::answers_extend(pre, *self),
                side == self.side(),
                sdi == pre.side(),
                sdi == self.side(),
                self.cells@.len() == pre.cells@.len(),
                0 <= row_start <= chars@.len(),
                y <= row_start,
                row_start == row_start_spec(chars@, y as int),
                forall|x2: int, y2: int|
                    0 <= x2 < sdi && 0 <= y2 < sdi
                        ==> #[trigger] self.cells@[pre.cell_index(x2, y2)].answer == (
                    if pre.cells@[pre.cell_index(x2, y2)].answer is Some {
                        pre.cells@[pre.cell_index(x2, y2)].answer
                    } else if y2 < y {
                        seeded(chars@, sdi, x2, y2)
                    } else {
                        None
                    }),
            decreases chars@.len() - row_start,
        {
            let ghost rs = row_start as int;
            // find the end of this row
            let mut row_end: usize = row_start;
            while row_end < chars.len() && chars[row_end] != '|'
                invariant
                    chars@ == issue@,
                    row_start <= row_end <= chars@.len(),
                    scan_to(chars@, row_end as int, chars@.len() as int, '|') == scan_to(
                        chars@,
                        rs,
                        chars@.len() as int,
                        '|',
                    ),
                decreases chars@.len() - row_end,
            {
                row_end = row_end + 1;
            }
            let ghost re = row_end as int;
            proof {
                assert(re == scan_to(chars@, rs, chars@.len() as int, '|'));
            }
            // does the row hold a comma?
            let mut has_comma = false;
            let mut t: usize = row_start;
            while t < row_end
                invariant
                    chars@ == issue@,
                    rs == row_start as int,
                    row_start <= t <= row_end,
                    row_end <= chars@.len(),
                    has_comma == exists|i: int| rs <= i < t && #[trigger] chars@[i] == ',',
                decreases row_end - t,
            {
                if chars[t] == ',' {
                    proof {
                        assert(chars@[t as int] == ',');
                        assert(exists|i: int| rs <= i < t + 1 && #[trigger] chars@[i] == ',');
                    }
                    has_comma = true;
                } else {
                    proof {
                        if !has_comma {
                            assert forall|i: int| rs <= i < t + 1 implies #[trigger] chars@[i]
                                != ',' by {
                                if i < t {
                                    assert(!(exists|i2: int|
                                        rs <= i2 < t && #[trigger] chars@[i2] == ','));
                                }
                            }
                        }
                    }
                }
                t = t + 1;
            }
            proof {
                assert(has_comma == has_comma_in(chars@, rs, re)) by {
                    if has_comma_in(chars@, rs, re) {
                        let i = choose|i: int| rs <= i < re && chars@[i] == ',';
                        assert(exists|i2: int| rs <= i2 < re && #[trigger] chars@[i2] == ',');
                    }
                }
            }
            if has_comma {
                let mut tok_start: usize = row_start;
                let mut x: usize = 0;
                while tok_start < row_end
                    invariant
                        chars@ == issue@,
                        self.wf(),
                        self.setting == pre.setting,
                        crate::normal_game::answers_extend(pre, *self),
                        side == self.side(),
                        sdi == pre.side(),
                        sdi == self.side(),
                        self.cells@.len() == pre.cells@.len(),
                        row_start <= tok_start <= row_end,
                        row_end <= chars@.len(),
                        x <= tok_start,
                        rs == row_start as int,
                        row_start < chars@.len(),
                        row_start == row_start_spec(chars@, y as int),
                        re == row_end as int,
                        re == scan_to(chars@, rs, chars@.len() as int, '|'),
                        has_comma_in(chars@, rs, re),
                        tok_start == tok_start_spec(chars@, rs, re, x as int),
                        forall|x2: int, y2: int|
                            0 <= x2 < sdi && 0 <= y2 < sdi
                                ==> #[trigger] self.cells@[pre.cell_index(x2, y2)].answer == (
                            if pre.cells@[pre.cell_index(x2, y2)].answer is Some {
                                pre.cells@[pre.cell_index(x2, y2)].answer
                            } else if y2 < y || (y2 == y && x2 < x) {
                                seeded(chars@, sdi, x2, y2)
                            } else {
                                None
                            }),
                    decreases row_end - tok_start,
                {
                    let ghost ts = tok_start as int;
                    let mut tok_end: usize = tok_start;
                    while tok_end < row_end && chars[tok_end] != ','
                        invariant
                            chars@ == issue@,
                            tok_start <= tok_end <= row_end,
                            row_end <= chars@.len(),
                            scan_to(chars@, tok_end as int, re, ',') == scan_to(chars@, ts, re, ','),
                            re == row_end as int,
                        decreases row_end - tok_end,
                    {
                        tok_end = tok_end + 1;
                    }
                    proof {
                        assert(tok_end as int == scan_to(chars@, ts, re, ','));
                    }
                    let ghost before = *self;
                    self.load_token(&chars, tok_start, tok_end, x, y, side);
                    proof {
                        crate::normal_game::lemma_answers_extend_trans(pre, before, *self);
                        assert(seeded(chars@, sdi, x as int, y as int) == token_seeds(
                            chars@,
                            ts,
                            tok_end as int,
                            sdi,
                            x as int,
                            y as int,
                        ));
                        assert forall|x2: int, y2: int| 0 <= x2 < sdi && 0 <= y2 < sdi
                            implies #[trigger] self.cells@[pre.cell_index(x2, y2)].answer == (
                        if pre.cells@[pre.cell_index(x2, y2)].answer is Some {
                            pre.cells@[pre.cell_index(x2, y2)].answer
                        } else if y2 < y || (y2 == y && x2 < x + 1) {
                            seeded(chars@, sdi, x2, y2)
                        } else {
                            None
                        }) by {
                            let jj = pre.cell_index(x2, y2);
                            assert(0 <= jj < pre.cells@.len()) by (nonlinear_arith)
                                requires
                                    0 <= x2 < sdi,
                                    0 <= y2 < sdi,
                                    jj == y2 * sdi + x2,
                                    pre.cells@.len() == sdi * sdi,
                            ;
                            if x2 == x && y2 == y {
                            } else {
                                assert(jj != before.cell_index(x as int, y as int) || !(0 <= (
                                x as int) < sdi && 0 <= (y as int) < sdi)) by (nonlinear_arith)
                                    requires
                                        0 <= x2 < sdi,
                                        0 <= y2 < sdi,
                                        !(x2 == x as int && y2 == y as int),
                                        jj == y2 * sdi + x2,
                                        before.cell_index(x as int, y as int) == y * sdi + x,
                                ;
                            }
                        }
                    }
                    x = x + 1;
                    if tok_end < row_end {
                        tok_start = tok_end + 1;
                    } else {
                        tok_start = row_end;
                    }
                    proof {
                        assert(tok_start == tok_start_spec(chars@, rs, re, x as int));
                    }
                }
                proof {
                    assert forall|x2: int| x <= x2 < sdi implies seeded(
                        chars@,
                        sdi,
                        x2,
                        y as int,
                    ) is None by {
                        lemma_tok_start_monotone(chars@, rs, re, x as int, x2);
                    }
                }
            } else {
                let mut t2: usize = row_start;
                let mut x: usize = 0;
                while t2 < row_end
                    invariant
                        chars@ == issue@,
                        self.wf(),
                        self.setting == pre.setting,
                        crate::normal_game::answers_extend(pre, *self),
                        side == self.side(),
                        sdi == pre.side(),
                        sdi == self.side(),
                        self.cells@.len() == pre.cells@.len(),
                        row_start <= t2 <= row_end,
                        row_end <= chars@.len(),
                        x == t2 - row_start,
                        rs == row_start as int,
                        row_start < chars@.len(),
                        row_start == row_start_spec(chars@, y as int),
                        re == row_end as int,
                        re == scan_to(chars@, rs, chars@.len() as int, '|'),
                        !has_comma_in(chars@, rs, re),
                        forall|x2: int, y2: int|
                            0 <= x2 < sdi && 0 <= y2 < sdi
                                ==> #[trigger] self.cells@[pre.cell_index(x2, y2)].answer == (
                            if pre.cells@[pre.cell_index(x2, y2)].answer is Some {
                                pre.cells@[pre.cell_index(x2, y2)].answer
                            } else if y2 < y || (y2 == y && x2 < x) {
                                seeded(chars@, sdi, x2, y2)
                            } else {
                                None
                            }),
                    decreases row_end - t2,
                {
                    let ghost before = *self;
                    self.load_token(&chars, t2, t2 + 1, x, y, side);
                    proof {
                        crate::normal_game::lemma_answers_extend_trans(pre, before, *self);
                        assert(seeded(chars@, sdi, x as int, y as int) == token_seeds(
                            chars@,
                            rs + x,
                            rs + x + 1,
                            sdi,
                            x as int,
                            y as int,
                        ));
                        assert forall|x2: int, y2: int| 0 <= x2 < sdi && 0 <= y2 < sdi
                            implies #[trigger] self.cells@[pre.cell_index(x2, y2)].answer == (
                        if pre.cells@[pre.cell_index(x2, y2)].answer is Some {
                            pre.cells@[pre.cell_index(x2, y2)].answer
                        } else if y2 < y || (y2 == y && x2 < x + 1) {
                            seeded(chars@, sdi, x2, y2)
                        } else {
                            None
                        }) by {
                            let jj = pre.cell_index(x2, y2);
                            assert(0 <= jj < pre.cells@.len()) by (nonlinear_arith)
                                requires
                                    0 <= x2 < sdi,
                                    0 <= y2 < sdi,
                                    jj == y2 * sdi + x2,
                                    pre.cells@.len() == sdi * sdi,
                            ;
                            if x2 == x && y2 == y {
                            } else {
                                assert(jj != before.cell_index(x as int, y as int) || !(0 <= (
                                x as int) < sdi && 0 <= (y as int) < sdi)) by (nonlinear_arith)
                                    requires
                                        0 <= x2 < sdi,
                                        0 <= y2 < sdi,
                                        !(x2 == x as int && y2 == y as int),
                                        jj == y2 * sdi + x2,
                                        before.cell_index(x as int, y as int) == y * sdi + x,
                                ;
                            }
                        }
                    }
                    x = x + 1;
                    t2 = t2 + 1;
                }
                proof {
                    assert forall|x2: int| x <= x2 < sdi implies seeded(
                        chars@,
                        sdi,
                        x2,
                        y as int,
                    ) is None by {
                        assert(rs + x2 >= re);
                    }
                }
            }
            y = y + 1;
            if row_end < chars.len() {
                row_start = row_end + 1;
            } else {
                row_start = row_end;
            }
            proof {
                assert(row_start == row_start_spec(chars@, y as int));
            }
        }
        proof {
            assert forall|x2: int, y2: int|
                0 <= x2 < sdi && 0 <= y2 < sdi && y2 >= y implies seeded(
                chars@,
                sdi,
                x2,
                y2,
            ) is None by {
                lemma_row_start_monotone(chars@, y as int, y2);
            }
        }
    }

    /// One token of the text: parsed as a decimal symbol and assigned at
    /// `(x, y)` when everything about it is in range; otherwise ignored.
    fn load_token(
        &mut self,
        chars: &Vec<char>,
        start: usize,
        end: usize,
        x: usize,
        y: usize,
        side: u8,
    )
        requires
            old(self).wf(),
            start <= end <= chars@.len(),
            side == old(self).side(),
        ensures
            final(self).wf(),
            final(self).setting == old(self).setting,
            crate::normal_game::answers_extend(*old(self), *final(self)),
            final(self).cells@.len() == old(self).cells@.len(),
            forall|j: int|
                0 <= j < old(self).cells@.len() ==> (#[trigger] final(self).cells@[j]).answer == (
                if j == old(self).cell_index(x as int, y as int) && old(
                    self,
                ).cells@[j].answer is None && token_seeds(
                    chars@,
                    start as int,
                    end as int,
                    old(self).side(),
                    x as int,
                    y as int,
                ) is Some {
                    token_seeds(
                        chars@,
                        start as int,
                        end as int,
                        old(self).side(),
                        x as int,
                        y as int,
                    )
                } else {
                    old(self).cells@[j].answer
                }),
    {
        let ghost ok0 = end > start;
        let mut value: u32 = 0;
        let mut ok = end > start;
        let mut t: usize = start;
        while t < end
            invariant
                start <= t <= end,
                end <= chars@.len(),
                value <= 259,
                parse_value(chars@, t as int, end as int, value as int, ok) == parse_value(
                    chars@,
                    start as int,
                    end as int,
                    0,
                    ok0,
                ),
            decreases end - t,
        {
            let c = chars[t];
            let cu = c as u32;
            if cu >= 48 && cu <= 57 {
                if value <= 25 {
                    value = value * 10 + (cu - 48);
                } else {
                    ok = false;
                }
            } else {
                ok = false;
            }
            t = t + 1;
        }
        proof {
            assert(parse_value(chars@, start as int, end as int, 0, ok0) == (value as int, ok));
        }
        if ok && value >= 1 && value <= side as u32 && x < side as usize && y < side as usize {
            proof {
                assert(token_seeds(
                    chars@,
                    start as int,
                    end as int,
                    old(self).side(),
                    x as int,
                    y as int,
                ) == Some(value as u8));
            }
            let pos = Position::new(x as u8, y as u8);
            self.set_answer(pos, value as u8);
        } else {
            proof {
                assert(token_seeds(
                    chars@,
                    start as int,
                    end as int,
                    old(self).side(),
                    x as int,
                    y as int,
                ) is None);
            }
        }
    }
}

} // verus!
