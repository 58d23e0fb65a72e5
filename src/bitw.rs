use vstd::prelude::*;
use vstd::string::StringSliceAdditionalSpecFns;

verus! {

/// Width and height of the glyph atlas, in pixels.
pub const ATLAS: usize = 1024;

/// ASCII whitespace, as `char::is_whitespace` classifies it.
pub open spec fn is_space(c: u8) -> bool {
    c == 32 || (9 <= c && c <= 13)
}

/// `l` without its trailing whitespace.
pub open spec fn trim_end(l: Seq<u8>) -> Seq<u8>
    decreases l.len(),
{
    if l.len() > 0 && is_space(l.last()) {
        trim_end(l.drop_last())
    } else {
        l
    }
}

/// The pieces of `b` between newlines; one more than there are newlines.
pub open spec fn split_lines(b: Seq<u8>) -> Seq<Seq<u8>>
    decreases b.len(),
{
    if b.len() == 0 {
        seq![Seq::empty()]
    } else if b.last() == 10 {
        split_lines(b.drop_last()).push(Seq::empty())
    } else {
        let s = split_lines(b.drop_last());
        s.update(s.len() - 1, s.last().push(b.last()))
    }
}

pub open spec fn is_digit(c: u8) -> bool {
    48 <= c && c <= 57
}

/// The value of a string of decimal digits.
pub open spec fn digits_value(d: Seq<u8>) -> int
    decreases d.len(),
{
    if d.len() == 0 {
        0
    } else {
        digits_value(d.drop_last()) * 10 + (d.last() - 48)
    }
}

/// Every byte of `d` is a decimal digit.
pub open spec fn all_digits(d: Seq<u8>) -> bool {
    forall|k: int| 0 <= k < d.len() ==> is_digit(#[trigger] d[k])
}

/// Whether `l` starts with a minus sign, and `l` without its sign.
pub open spec fn sign_split(l: Seq<u8>) -> (bool, Seq<u8>) {
    if l.len() > 0 && l[0] == 45 {
        (true, l.skip(1))
    } else if l.len() > 0 && l[0] == 43 {
        (false, l.skip(1))
    } else {
        (false, l)
    }
}

/// A decimal `i32`, as `str::parse::<i32>` reads it: an optional sign, then
/// one or more digits, with a value in range.
pub open spec fn parse_i32(l: Seq<u8>) -> Option<i32> {
    let (neg, d) = sign_split(l);
    let v = if neg {
        -digits_value(d)
    } else {
        digits_value(d)
    };
    if d.len() > 0 && all_digits(d) && i32::MIN <= v && v <= i32::MAX {
        Some(v as i32)
    } else {
        None
    }
}

/// The atlas `data` with the glyph `rows` drawn at pixel `(px, py)`: in its
/// `col` by `row` cell every set bit becomes white, every clear one black.
pub open spec fn blit(data: Seq<u8>, px: int, py: int, rows: Seq<Seq<bool>>, col: int, row: int) -> Seq<u8> {
    Seq::new(
        data.len(),
        |i: int|
            {
                let x = (i / 4) % (ATLAS as int) - px;
                let y = (i / 4) / (ATLAS as int) - py;
                if 0 <= x < col && 0 <= y < row {
                    if rows[y][x] {
                        255u8
                    } else {
                        0u8
                    }
                } else {
                    data[i]
                }
            },
    )
}

/// Where the bitmap font reader stands after some lines: the number of the
/// glyph being read (-1 between glyphs), its rows so far, the glyph size once
/// known (0 before), and the atlas.
pub struct LoadState {
    pub num: i32,
    pub rows: Seq<Seq<bool>>,
    pub row: u32,
    pub col: u32,
    pub data: Seq<u8>,
}

/// The state after the trimmed line `line`, or `None` where the input is
/// malformed: a glyph number that does not parse or is negative, glyphs of
/// different heights, an empty first glyph, a glyph wider than the atlas, a
/// row narrower than the glyph, or a glyph placed past the atlas.
pub open spec fn load_step(st: LoadState, line: Seq<u8>) -> Option<LoadState> {
    if line.len() == 0 {
        if st.num == -1 {
            Some(st)
        } else if st.num < 0 || st.rows.len() > u32::MAX || (st.row != 0 && st.row != st.rows.len()) {
            None
        } else if st.col == 0 && (st.rows.len() == 0 || st.rows[0].len() == 0 || st.rows[0].len() > ATLAS) {
            None
        } else {
            let row = st.rows.len() as int;
            let col = if st.col == 0 {
                st.rows[0].len() as int
            } else {
                st.col as int
            };
            let per_row = ATLAS as int / col;
            let px = (st.num as int % per_row) * col;
            let py = (st.num as int / per_row) * row;
            if col > ATLAS || py + row > ATLAS || exists|y: int| 0 <= y < row && #[trigger] st.rows[y].len() < col {
                None
            } else {
                Some(
                    LoadState {
                        num: -1i32,
                        rows: Seq::empty(),
                        row: row as u32,
                        col: col as u32,
                        data: blit(st.data, px, py, st.rows, col, row),
                    },
                )
            }
        }
    } else if st.num == -1 {
        match parse_i32(line) {
            Some(n) => Some(LoadState { num: n, ..st }),
            None => None,
        }
    } else {
        Some(LoadState { rows: st.rows.push(line.map_values(|c: u8| c == 49)), ..st })
    }
}

/// The reader's state after the trimmed `lines`, from `st`.
pub open spec fn load_lines(st: LoadState, lines: Seq<Seq<u8>>) -> Option<LoadState>
    decreases lines.len(),
{
    if lines.len() == 0 {
        Some(st)
    } else {
        match load_lines(st, lines.drop_last()) {
            Some(s) => load_step(s, trim_end(lines.last())),
            None => None,
        }
    }
}

/// The state before the first line: a black atlas.
pub open spec fn load_start() -> LoadState {
    LoadState {
        num: -1i32,
        rows: Seq::empty(),
        row: 0,
        col: 0,
        data: Seq::new((ATLAS * ATLAS * 4) as nat, |i: int| 0u8),
    }
}

/// The reader's final state on the font file `text`.
pub open spec fn load_font(text: Seq<u8>) -> Option<LoadState> {
    load_lines(load_start(), split_lines(text))
}

/// The length of `l` without its trailing whitespace.
fn trimmed_len(l: &Vec<u8>) -> (k: usize)
    ensures
        k <= l@.len(),
        l@.take(k as int) == trim_end(l@),
{
    let mut k = l.len();
    assert(l@.take(k as int) =~= l@);
    while k > 0 && (l[k - 1] == 32 || (9 <= l[k - 1] && l[k - 1] <= 13))
        invariant
            k <= l@.len(),
            trim_end(l@.take(k as int)) == trim_end(l@),
        decreases k,
    {
        assert(l@.take(k as int).drop_last() =~= l@.take(k - 1));
        k -= 1;
    }
    k
}

/// A string of digits is worth at least each of its prefixes.
proof fn lemma_digits_prefix(d: Seq<u8>, k: int)
    requires
        0 <= k <= d.len(),
        forall|j: int| 0 <= j < d.len() ==> is_digit(#[trigger] d[j]),
    ensures
        0 <= digits_value(d.take(k)) <= digits_value(d),
    decreases d.len() - k,
{
    if k < d.len() {
        lemma_digits_prefix(d, k + 1);
        assert(d.take(k + 1).drop_last() =~= d.take(k));
    } else {
        assert(d.take(k) =~= d);
        lemma_digits_nonneg(d);
    }
}

proof fn lemma_digits_nonneg(d: Seq<u8>)
    requires
        forall|j: int| 0 <= j < d.len() ==> is_digit(#[trigger] d[j]),
    ensures
        digits_value(d) >= 0,
    decreases d.len(),
{
    if d.len() > 0 {
        lemma_digits_nonneg(d.drop_last());
        assert(is_digit(d[d.len() - 1]));
    }
}

/// Reads `l[..len]` as a decimal `i32` (see `parse_i32`).
pub fn parse_decimal(l: &Vec<u8>, len: usize) -> (r: Option<i32>)
    requires
        len <= l@.len(),
    ensures
        r == parse_i32(l@.take(len as int)),
{
    let ghost s = l@.take(len as int);
    let neg = len > 0 && l[0] == 45;
    let start: usize = if len > 0 && (l[0] == 45 || l[0] == 43) {
        1
    } else {
        0
    };
    let ghost d = if len > 0 && (l[0] == 45 || l[0] == 43) {
        s.skip(1)
    } else {
        s
    };
    assert(d =~= l@.subrange(start as int, len as int));
    assert(len > 0 ==> s[0] == l@[0]);
    assert(sign_split(s) == (neg, d));
    if start >= len {
        return None;
    }
    let mut v: u64 = 0;
    let mut i: usize = start;
    while i < len
        invariant
            start <= i <= len,
            len <= l@.len(),
            d == l@.subrange(start as int, len as int),
            s == l@.take(len as int),
            sign_split(s) == (neg, d),
            v == digits_value(d.take(i - start)),
            v <= 2147483648,
            forall|j: int| 0 <= j < i - start ==> is_digit(#[trigger] d[j]),
        decreases len - i,
    {
        let c = l[i];
        assert(c == d[i - start]);
        if !(48 <= c && c <= 57) {
            assert(!is_digit(d[i - start]));
            assert(!all_digits(d));
            return None;
        }
        assert(d.take(i - start + 1).drop_last() =~= d.take(i - start));
        v = v * 10 + (c - 48) as u64;
        if v > 2147483648 {
            proof {
                if all_digits(d) {
                    lemma_digits_prefix(d, i - start + 1);
                }
            }
            return None;
        }
        i += 1;
    }
    assert(d.take(i - start) =~= d);
    if neg {
        Some((0 - (v as i64)) as i32)
    } else if v > 2147483647 {
        None
    } else {
        Some(v as i32)
    }
}

/// The atlas `data` with the cells of the glyph drawn up to row `yl`, and in
/// row `yl` up to column `xl`.
pub open spec fn blit_part(
    data: Seq<u8>,
    px: int,
    py: int,
    rows: Seq<Seq<bool>>,
    col: int,
    row: int,
    yl: int,
    xl: int,
) -> Seq<u8> {
    Seq::new(
        data.len(),
        |i: int|
            {
                let x = (i / 4) % (ATLAS as int) - px;
                let y = (i / 4) / (ATLAS as int) - py;
                if 0 <= x < col && 0 <= y < row && (y < yl || (y == yl && x < xl)) {
                    if rows[y][x] {
                        255u8
                    } else {
                        0u8
                    }
                } else {
                    data[i]
                }
            },
    )
}

/// Byte `i` of the atlas belongs to pixel `(p % ATLAS, p / ATLAS)` where
/// `p = i / 4`; pixel `(x, y)` holds bytes `4 * (y * ATLAS + x)` onwards.
proof fn lemma_pixel_of(i: int, x: int, y: int)
    requires
        0 <= x < ATLAS,
        0 <= y,
        (y * ATLAS + x) * 4 <= i < (y * ATLAS + x) * 4 + 4,
    ensures
        (i / 4) % (ATLAS as int) == x,
        (i / 4) / (ATLAS as int) == y,
{
    let p = y * ATLAS + x;
    vstd::arithmetic::div_mod::lemma_fundamental_div_mod_converse(i, 4, p, i - p * 4);
    vstd::arithmetic::div_mod::lemma_fundamental_div_mod_converse(p, ATLAS as int, y, x);
}

/// A byte outside pixel `(x, y)` belongs to another pixel.
proof fn lemma_other_pixel(i: int, x: int, y: int)
    requires
        0 <= x < ATLAS,
        0 <= y,
        0 <= i,
        !((y * ATLAS + x) * 4 <= i < (y * ATLAS + x) * 4 + 4),
    ensures
        !((i / 4) % (ATLAS as int) == x && (i / 4) / (ATLAS as int) == y),
{
    let p = i / 4;
    vstd::arithmetic::div_mod::lemma_fundamental_div_mod(i, 4);
    vstd::arithmetic::div_mod::lemma_fundamental_div_mod(p, ATLAS as int);
    if p % (ATLAS as int) == x && p / (ATLAS as int) == y {
        assert(p == y * ATLAS + x);
        assert(0 <= i % 4 < 4);
    }
}

/// Draws the glyph `rows`, `col` by `row` pixels, at `(px, py)` of the atlas.
fn blit_glyph(data: &mut Vec<u8>, px: usize, py: usize, rows: &Vec<Vec<bool>>, col: usize, row: usize)
    requires
        old(data)@.len() == ATLAS * ATLAS * 4,
        px + col <= ATLAS,
        py + row <= ATLAS,
        row <= rows@.len(),
        forall|y: int| 0 <= y < row ==> col <= (#[trigger] rows@[y])@.len(),
    ensures
        final(data)@ == blit(old(data)@, px as int, py as int, rows@.map_values(|r: Vec<bool>| r@), col as int, row as int),
{
    let ghost d0 = old(data)@;
    let ghost rs = rows@.map_values(|r: Vec<bool>| r@);
    assert(blit_part(d0, px as int, py as int, rs, col as int, row as int, 0, 0) =~= d0);
    let mut y: usize = 0;
    while y < row
        invariant
            d0.len() == ATLAS * ATLAS * 4,
            px + col <= ATLAS,
            py + row <= ATLAS,
            row <= rows@.len(),
            forall|y: int| 0 <= y < row ==> col <= (#[trigger] rows@[y])@.len(),
            rs == rows@.map_values(|r: Vec<bool>| r@),
            y <= row,
            data@ == blit_part(d0, px as int, py as int, rs, col as int, row as int, y as int, 0),
        decreases row - y,
    {
        let line = &rows[y];
        assert(line@ == rs[y as int]);
        let mut x: usize = 0;
        while x < col
            invariant
                d0.len() == ATLAS * ATLAS * 4,
                px + col <= ATLAS,
                py + row <= ATLAS,
                y < row,
                col <= line@.len(),
                line@ == rs[y as int],
                x <= col,
                data@ == blit_part(d0, px as int, py as int, rs, col as int, row as int, y as int, x as int),
            decreases col - x,
        {
            let v: u8 = if line[x] {
                255
            } else {
                0
            };
            let base = ((py + y) * ATLAS + px + x) * 4;
            proof {
                assert((py + y) * ATLAS + px + x < ATLAS * ATLAS) by (nonlinear_arith)
                    requires
                        py + y < ATLAS,
                        px + x < ATLAS,
                ;
            }
            let ghost before = data@;
            data.set(base, v);
            data.set(base + 1, v);
            data.set(base + 2, v);
            data.set(base + 3, v);
            proof {
                let target = blit_part(d0, px as int, py as int, rs, col as int, row as int, y as int, x + 1);
                assert forall|i: int| 0 <= i < data@.len() implies data@[i] == target[i] by {
                    if base <= i < base + 4 {
                        lemma_pixel_of(i, (px + x) as int, (py + y) as int);
                    } else {
                        lemma_other_pixel(i, (px + x) as int, (py + y) as int);
                        assert(data@[i] == before[i]);
                    }
                }
                assert(data@ =~= target);
            }
            x += 1;
        }
        assert(blit_part(d0, px as int, py as int, rs, col as int, row as int, y as int, col as int)
            =~= blit_part(d0, px as int, py as int, rs, col as int, row as int, y + 1, 0));
        y += 1;
    }
    assert(blit_part(d0, px as int, py as int, rs, col as int, row as int, row as int, 0)
        =~= blit(d0, px as int, py as int, rs, col as int, row as int));
}

/// Every one of the first `row` rows is at least `col` wide.
fn rows_cover(rows: &Vec<Vec<bool>>, row: usize, col: usize) -> (r: bool)
    requires
        row <= rows@.len(),
    ensures
        r == forall|y: int| 0 <= y < row ==> col <= (#[trigger] rows@[y])@.len(),
{
    let mut y: usize = 0;
    while y < row
        invariant
            row <= rows@.len(),
            y <= row,
            forall|k: int| 0 <= k < y ==> col <= (#[trigger] rows@[k])@.len(),
        decreases row - y,
    {
        if rows[y].len() < col {
            return false;
        }
        y += 1;
    }
    true
}

/// Splitting yields at least one piece.
proof fn lemma_split_nonempty(b: Seq<u8>)
    ensures
        split_lines(b).len() >= 1,
    decreases b.len(),
{
    if b.len() > 0 {
        lemma_split_nonempty(b.drop_last());
    }
}

/// The bitmap font reader's working state (see `LoadState`).
struct Loader {
    num: i32,
    rows: Vec<Vec<bool>>,
    row: u32,
    col: u32,
    data: Vec<u8>,
}

impl Loader {
    spec fn view(&self) -> LoadState {
        LoadState {
            num: self.num,
            rows: self.rows@.map_values(|r: Vec<bool>| r@),
            row: self.row,
            col: self.col,
            data: self.data@,
        }
    }

    fn new() -> (r: Self)
        ensures
            r.view() == load_start(),
    {
        let mut data: Vec<u8> = Vec::new();
        let mut i: usize = 0;
        while i < ATLAS * ATLAS * 4
            invariant
                i <= ATLAS * ATLAS * 4,
                data@ == Seq::new(i as nat, |j: int| 0u8),
            decreases ATLAS * ATLAS * 4 - i,
        {
            data.push(0);
            assert(data@ =~= Seq::new((i + 1) as nat, |j: int| 0u8));
            i += 1;
        }
        let r = Loader { num: -1, rows: Vec::new(), row: 0, col: 0, data };
        assert(r.view().rows =~= Seq::<Seq<bool>>::empty());
        r
    }

    /// Takes the trimmed line `line[..len]`; false where the input is
    /// malformed (see `load_step`), and then nothing changed.
    fn step(&mut self, line: &Vec<u8>, len: usize) -> (ok: bool)
        requires
            len <= line@.len(),
            old(self).data@.len() == ATLAS * ATLAS * 4,
        ensures
            ok == load_step(old(self).view(), line@.take(len as int)) is Some,
            ok ==> Some(final(self).view()) == load_step(old(self).view(), line@.take(len as int)),
            final(self).data@.len() == ATLAS * ATLAS * 4,
    {
        let ghost st = self.view();
        let ghost l = line@.take(len as int);
        if len == 0 {
            if self.num == -1 {
                return true;
            }
            if self.num < 0 {
                return false;
            }
            let nrows = self.rows.len();
            if nrows > 0xffff_ffff {
                return false;
            }
            if self.row != 0 && self.row as usize != nrows {
                return false;
            }
            if self.col == 0 && (nrows == 0 || self.rows[0].len() == 0 || self.rows[0].len() > ATLAS) {
                proof {
                    if nrows > 0 {
                        assert(st.rows[0] == self.rows@[0]@);
                    }
                }
                return false;
            }
            let row = nrows;
            let col: usize = if self.col == 0 {
                self.rows[0].len()
            } else {
                self.col as usize
            };
            proof {
                if self.col == 0 {
                    assert(st.rows[0] == self.rows@[0]@);
                }
            }
            if col > ATLAS {
                return false;
            }
            assert(col > 0);
            let per_row = ATLAS / col;
            let n = self.num as usize;
            proof {
                vstd::arithmetic::div_mod::lemma_fundamental_div_mod(ATLAS as int, col as int);
                vstd::arithmetic::div_mod::lemma_mod_pos_bound(ATLAS as int, col as int);
                assert(per_row >= 1) by (nonlinear_arith)
                    requires
                        ATLAS == col * per_row + ATLAS % col,
                        ATLAS % col < col,
                        col <= ATLAS,
                ;
                vstd::arithmetic::div_mod::lemma_mod_pos_bound(n as int, per_row as int);
                assert((n % per_row) * col + col <= ATLAS) by (nonlinear_arith)
                    requires
                        n % per_row < per_row,
                        ATLAS == col * per_row + ATLAS % col,
                        ATLAS % col >= 0,
                        col > 0,
                ;
            }
            let px = (n % per_row) * col;
            let cy = n / per_row;
            let py: usize = if row == 0 {
                0
            } else if row > ATLAS || cy > ATLAS {
                proof {
                    assert(cy * row >= cy && cy * row >= 0) by (nonlinear_arith)
                        requires
                            row >= 1,
                            cy >= 0,
                    ;
                }
                return false;
            } else {
                proof {
                    assert(cy * row <= ATLAS * ATLAS) by (nonlinear_arith)
                        requires
                            cy <= ATLAS,
                            row <= ATLAS,
                    ;
                }
                cy * row
            };
            if py + row > ATLAS {
                return false;
            }
            if !rows_cover(&self.rows, row, col) {
                proof {
                    let y = choose|y: int| 0 <= y < row && (#[trigger] self.rows@[y])@.len() < col;
                    assert(st.rows[y] == self.rows@[y]@);
                }
                return false;
            }
            proof {
                assert forall|k: int| 0 <= k < row implies !(#[trigger] st.rows[k].len() < col) by {
                    assert(st.rows[k] == self.rows@[k]@);
                }
            }
            blit_glyph(&mut self.data, px, py, &self.rows, col, row);
            self.num = -1;
            self.rows = Vec::new();
            self.row = row as u32;
            self.col = col as u32;
            assert(self.view().rows =~= Seq::<Seq<bool>>::empty());
            true
        } else if self.num == -1 {
            match parse_decimal(line, len) {
                Some(n) => {
                    self.num = n;
                    true
                },
                None => false,
            }
        } else {
            let mut bits: Vec<bool> = Vec::new();
            let mut k: usize = 0;
            while k < len
                invariant
                    k <= len,
                    len <= line@.len(),
                    l == line@.take(len as int),
                    bits@ == l.take(k as int).map_values(|c: u8| c == 49),
                decreases len - k,
            {
                bits.push(line[k] == 49);
                assert(bits@ =~= l.take(k + 1).map_values(|c: u8| c == 49));
                k += 1;
            }
            assert(l.take(k as int) =~= l);
            let ghost before = self.rows@;
            self.rows.push(bits);
            assert(self.view().rows =~= st.rows.push(l.map_values(|c: u8| c == 49)));
            true
        }
    }
}

/// Reads a bitmap font file: each glyph is its number on a line of its own,
/// then one line per pixel row (`1` for a set pixel), then an empty line.
/// Returns the atlas with every glyph drawn in its cell and the glyph size as
/// `(width, height)`, or `None` where the file is malformed.
pub fn load_font_bytes(text: &str) -> (r: Option<(Vec<u8>, u32, u32)>)
    ensures
        match load_font(text.spec_bytes()) {
            Some(st) => r matches Some(res) && res.0@ == st.data && res.1 == st.col && res.2 == st.row,
            None => r is None,
        },
{
    let bytes = text.as_bytes();
    let ghost b = bytes@;
    let n = bytes.len();
    let mut st = Loader::new();
    let mut ok = true;
    let mut line: Vec<u8> = Vec::new();
    let mut i: usize = 0;
    assert(split_lines(b.take(0)) =~= seq![Seq::<u8>::empty()]);
    assert(split_lines(b.take(0)).drop_last() =~= Seq::<Seq<u8>>::empty());
    assert(line@ =~= Seq::<u8>::empty());
    while i < n
        invariant
            n == b.len(),
            b == text.spec_bytes(),
            bytes@ == b,
            i <= n,
            st.data@.len() == ATLAS * ATLAS * 4,
            line@ == split_lines(b.take(i as int)).last(),
            ok ==> load_lines(load_start(), split_lines(b.take(i as int)).drop_last()) == Some(st.view()),
            !ok ==> load_lines(load_start(), split_lines(b.take(i as int)).drop_last()) is None,
        decreases n - i,
    {
        let ghost s = split_lines(b.take(i as int));
        proof {
            lemma_split_nonempty(b.take(i as int));
            assert(b.take(i + 1).drop_last() =~= b.take(i as int));
            assert(b.take(i + 1).last() == b[i as int]);
        }
        if bytes[i] == 10 {
            proof {
                assert(split_lines(b.take(i + 1)).drop_last() =~= s);
                assert(s.drop_last().push(s.last()) =~= s);
            }
            if ok {
                let k = trimmed_len(&line);
                ok = st.step(&line, k);
            }
            line = Vec::new();
            assert(line@ =~= Seq::<u8>::empty());
        } else {
            proof {
                assert(split_lines(b.take(i + 1)).drop_last() =~= s.drop_last());
            }
            line.push(bytes[i]);
        }
        i += 1;
    }
    proof {
        assert(b.take(n as int) =~= b);
        lemma_split_nonempty(b);
        let s = split_lines(b);
        assert(s.drop_last().push(s.last()) =~= s);
    }
    if ok {
        let k = trimmed_len(&line);
        ok = st.step(&line, k);
    }
    if ok {
        Some((st.data, st.col, st.row))
    } else {
        None
    }
}

} // verus!
