//! Building grids from rows and printing them as text.
use vstd::prelude::*;

use crate::data::{MapCell, Pos};
use crate::lines::lines_view;
use crate::text::{chars_of, decimal, decimal_i64, decimal_u64, pad_left, push_char, push_padded_left};
use crate::vec2d::Vec2d;

verus! {

/// The length of the longest row.
pub open spec fn max_row_len<T>(rows: Seq<Vec<T>>) -> nat
    decreases rows.len(),
{
    if rows.len() == 0 {
        0
    } else {
        let m = max_row_len(rows.drop_last());
        if rows.last()@.len() > m {
            rows.last()@.len()
        } else {
            m
        }
    }
}

proof fn lemma_max_row_len<T>(rows: Seq<Vec<T>>)
    ensures
        forall|r: int| 0 <= r < rows.len() ==> (#[trigger] rows[r])@.len() <= max_row_len(rows),
        rows.len() == 0 || exists|r: int| 0 <= r < rows.len() && (#[trigger] rows[r])@.len() == max_row_len(rows),
    decreases rows.len(),
{
    if rows.len() > 0 {
        lemma_max_row_len(rows.drop_last());
        assert forall|r: int| 0 <= r < rows.len() implies (#[trigger] rows[r])@.len() <= max_row_len(rows) by {
            if r < rows.len() - 1 {
                assert(rows[r] == rows.drop_last()[r]);
            }
        }
        if rows.drop_last().len() > 0 && rows.last()@.len() <= max_row_len(rows.drop_last()) {
            let r = choose|r: int| 0 <= r < rows.drop_last().len() && (#[trigger] rows.drop_last()[r])@.len() == max_row_len(rows.drop_last());
            assert(rows[r] == rows.drop_last()[r]);
        } else {
            assert(rows[rows.len() - 1] == rows.last());
        }
    }
}

/// The cell at `p` of the grid built from `rows`: the row's own cell, or `fill` beyond
/// the end of a short row.
pub open spec fn padded_cell<T>(rows: Seq<Vec<T>>, fill: T, p: Pos) -> T {
    if (p.c as int) < rows[p.r as int]@.len() {
        rows[p.r as int]@[p.c as int]
    } else {
        fill
    }
}

impl<T: Copy> Vec2d<T> {
    /// A grid with one row per element of `rows`, as wide as the longest of them;
    /// shorter rows are filled up with `fill`.
    pub fn from_rows(rows: &[Vec<T>], fill: T) -> (g: Vec2d<T>)
        requires
            rows@.len() <= 255,
            forall|r: int| 0 <= r < rows@.len() ==> (#[trigger] rows@[r])@.len() <= 255,
        ensures
            g.wf(),
            g.rows == rows@.len(),
            g.cols == max_row_len(rows@),
            forall|p: Pos| g.in_bounds(p) ==> #[trigger] g.at(p) == padded_cell(rows@, fill, p),
    {
        proof {
            lemma_max_row_len(rows@);
        }
        let mut max_cols: usize = 0;
        let mut i: usize = 0;
        while i < rows.len()
            invariant
                i <= rows@.len(),
                max_cols == max_row_len(rows@.take(i as int)),
                max_cols <= 255,
                forall|r: int| 0 <= r < rows@.len() ==> (#[trigger] rows@[r])@.len() <= 255,
            decreases rows@.len() - i,
        {
            proof {
                assert(rows@.take(i as int + 1).drop_last() =~= rows@.take(i as int));
            }
            if rows[i].len() > max_cols {
                max_cols = rows[i].len();
            }
            i = i + 1;
        }
        proof {
            assert(rows@.take(rows@.len() as int) =~= rows@);
        }
        let mut data: Vec<T> = Vec::new();
        let mut r: usize = 0;
        while r < rows.len()
            invariant
                r <= rows@.len(),
                rows@.len() <= 255,
                max_cols == max_row_len(rows@),
                max_cols <= 255,
                forall|k: int| 0 <= k < rows@.len() ==> (#[trigger] rows@[k])@.len() <= max_cols,
                data@.len() == r * max_cols,
                forall|k: int, c: int|
                    0 <= k < r && 0 <= c < max_cols ==> #[trigger] data@[k * max_cols + c] == (if c
                        < rows@[k]@.len() {
                        rows@[k]@[c]
                    } else {
                        fill
                    }),
            decreases rows@.len() - r,
        {
            let row = &rows[r];
            let mut c: usize = 0;
            while c < max_cols
                invariant
                    r < rows@.len(),
                    rows@.len() <= 255,
                    max_cols <= 255,
                    row@ == rows@[r as int]@,
                    row@.len() <= max_cols,
                    c <= max_cols,
                    data@.len() == r * max_cols + c,
                    forall|k: int, c1: int|
                        0 <= k < r && 0 <= c1 < max_cols ==> #[trigger] data@[k * max_cols + c1] == (if c1
                            < rows@[k]@.len() {
                            rows@[k]@[c1]
                        } else {
                            fill
                        }),
                    forall|c1: int|
                        0 <= c1 < c ==> #[trigger] data@[r * max_cols + c1] == (if c1 < row@.len() {
                            row@[c1]
                        } else {
                            fill
                        }),
                decreases max_cols - c,
            {
                let ghost before = data@;
                if c < row.len() {
                    data.push(row[c]);
                } else {
                    data.push(fill);
                }
                proof {
                    assert forall|k: int, c1: int|
                        0 <= k < r && 0 <= c1 < max_cols implies #[trigger] data@[k * max_cols + c1] == (if c1
                            < rows@[k]@.len() {
                            rows@[k]@[c1]
                        } else {
                            fill
                        }) by {
                        crate::vec2d::lemma_index_bounds(k, c1, r as int, max_cols as int);
                        assert(data@[k * max_cols + c1] == before[k * max_cols + c1]);
                    }
                    assert forall|c1: int| 0 <= c1 < c + 1 implies #[trigger] data@[r * max_cols + c1] == (if c1
                        < row@.len() {
                        row@[c1]
                    } else {
                        fill
                    }) by {
                        if c1 < c {
                            assert(data@[r * max_cols + c1] == before[r * max_cols + c1]);
                        }
                    }
                }
                c = c + 1;
            }
            proof {
                assert((r + 1) * max_cols == r * max_cols + max_cols) by (nonlinear_arith);
            }
            r = r + 1;
        }
        let g = Vec2d { data, rows: rows.len() as u8, cols: max_cols as u8 };
        proof {
            assert forall|p: Pos| g.in_bounds(p) implies #[trigger] g.at(p) == padded_cell(rows@, fill, p) by {
                assert(g.idx(p) == p.r as int * max_cols + p.c as int);
            }
        }
        g
    }
}

impl<T: Copy + Default> Vec2d<T> {
    /// A grid with one row per element of `rows`, as wide as the longest of them;
    /// shorter rows are filled up with the default value of `T`.
    pub fn new(rows: &[Vec<T>]) -> (g: Vec2d<T>)
        requires
            rows@.len() <= 255,
            forall|r: int| 0 <= r < rows@.len() ==> (#[trigger] rows@[r])@.len() <= 255,
        ensures
            g.wf(),
            g.rows == rows@.len(),
            g.cols == max_row_len(rows@),
            exists|d: T|
                call_ensures(T::default, (), d) && forall|p: Pos| g.in_bounds(p) ==> #[trigger] g.at(p)
                    == padded_cell(rows@, d, p),
    {
        let d = T::default();
        Self::from_rows(rows, d)
    }
}

/// One character per cell, a line per row of `cols` cells (nothing when `cols` is 0).
pub open spec fn char_rows_text(chars: Seq<char>, cols: nat, n: nat) -> Seq<char>
    decreases n,
{
    if n == 0 || cols == 0 {
        Seq::empty()
    } else {
        let prev = char_rows_text(chars, cols, (n - 1) as nat).push(chars[n - 1]);
        if n % cols == 0 {
            prev.push('\n')
        } else {
            prev
        }
    }
}

/// Every cell right-aligned to the width of the longest cell of the whole grid, with a
/// space before it, a line per row of `cols` cells.
pub open spec fn table_text(texts: Seq<Seq<char>>, cols: nat, width: int, n: nat) -> Seq<char>
    decreases n,
{
    if n == 0 || cols == 0 {
        Seq::empty()
    } else {
        let prev = table_text(texts, cols, width, (n - 1) as nat) + seq![' '] + pad_left(
            texts[n - 1],
            width,
        );
        if n % cols == 0 {
            prev.push('\n')
        } else {
            prev
        }
    }
}

/// The length of the longest of the first `n` texts.
pub open spec fn max_text_len(texts: Seq<Seq<char>>, n: nat) -> nat
    decreases n,
{
    if n == 0 {
        0
    } else {
        let m = max_text_len(texts, (n - 1) as nat);
        if texts[n - 1].len() > m {
            texts[n - 1].len()
        } else {
            m
        }
    }
}

/// The length of the longest of the first `n` texts that lie in column `c`.
pub open spec fn column_width(texts: Seq<Seq<char>>, cols: nat, c: int, n: nat) -> nat
    decreases n,
{
    if n == 0 || cols == 0 {
        0
    } else {
        let m = column_width(texts, cols, c, (n - 1) as nat);
        if (n - 1) % (cols as int) == c && texts[n - 1].len() > m {
            texts[n - 1].len()
        } else {
            m
        }
    }
}

/// Every cell right-aligned to the width of the longest cell of its column, with a space
/// after it, a line per row of `cols` cells.
pub open spec fn columns_text(texts: Seq<Seq<char>>, cols: nat, n: nat) -> Seq<char>
    decreases n,
{
    if n == 0 || cols == 0 {
        Seq::empty()
    } else {
        let prev = columns_text(texts, cols, (n - 1) as nat) + pad_left(
            texts[n - 1],
            column_width(texts, cols, (n - 1) % (cols as int), texts.len()) as int,
        ) + seq![' '];
        if n % cols == 0 {
            prev.push('\n')
        } else {
            prev
        }
    }
}

/// A grid of single characters, a line per row.
fn char_grid_string(chars: &Vec<char>, cols: usize) -> (s: String)
    ensures
        s@ == char_rows_text(chars@, cols as nat, chars@.len()),
{
    let mut s = String::new();
    if cols == 0 {
        return s;
    }
    let mut i: usize = 0;
    while i < chars.len()
        invariant
            cols > 0,
            i <= chars@.len(),
            s@ == char_rows_text(chars@, cols as nat, i as nat),
        decreases chars@.len() - i,
    {
        push_char(&mut s, chars[i]);
        if (i + 1) % cols == 0 {
            push_char(&mut s, '\n');
        }
        i = i + 1;
    }
    s
}

/// A grid of texts, each right-aligned to the longest one.
fn table_string(texts: &Vec<Vec<char>>, cols: usize) -> (s: String)
    ensures
        s@ == table_text(
            lines_view(texts@),
            cols as nat,
            max_text_len(lines_view(texts@), texts@.len()) as int,
            texts@.len(),
        ),
{
    let ghost ts = lines_view(texts@);
    let mut width: usize = 0;
    let mut i: usize = 0;
    while i < texts.len()
        invariant
            i <= texts@.len(),
            ts == lines_view(texts@),
            width == max_text_len(ts, i as nat),
        decreases texts@.len() - i,
    {
        if texts[i].len() > width {
            width = texts[i].len();
        }
        i = i + 1;
    }
    let mut s = String::new();
    if cols == 0 {
        return s;
    }
    let mut i: usize = 0;
    while i < texts.len()
        invariant
            cols > 0,
            i <= texts@.len(),
            ts == lines_view(texts@),
            width == max_text_len(ts, texts@.len()),
            s@ == table_text(ts, cols as nat, width as int, i as nat),
        decreases texts@.len() - i,
    {
        push_char(&mut s, ' ');
        push_padded_left(&mut s, &texts[i], width);
        proof {
            assert(ts[i as int] == texts@[i as int]@);
        }
        if (i + 1) % cols == 0 {
            push_char(&mut s, '\n');
        }
        i = i + 1;
    }
    s
}

/// A grid of texts, each right-aligned to the longest one of its column.
fn columns_string(texts: &Vec<Vec<char>>, cols: usize) -> (s: String)
    ensures
        s@ == columns_text(lines_view(texts@), cols as nat, texts@.len()),
{
    let ghost ts = lines_view(texts@);
    let mut s = String::new();
    if cols == 0 {
        return s;
    }
    let mut widths: Vec<usize> = Vec::new();
    let mut c: usize = 0;
    while c < cols
        invariant
            c <= cols,
            widths@.len() == c,
            forall|k: int| 0 <= k < c ==> widths@[k] == 0,
        decreases cols - c,
    {
        widths.push(0);
        c = c + 1;
    }
    let mut i: usize = 0;
    while i < texts.len()
        invariant
            cols > 0,
            i <= texts@.len(),
            ts == lines_view(texts@),
            widths@.len() == cols,
            forall|k: int| 0 <= k < cols ==> #[trigger] widths@[k] == column_width(ts, cols as nat, k, i as nat),
        decreases texts@.len() - i,
    {
        let k = i % cols;
        if texts[i].len() > widths[k] {
            widths.set(k, texts[i].len());
        }
        proof {
            assert forall|k1: int| 0 <= k1 < cols implies #[trigger] widths@[k1] == column_width(
                ts,
                cols as nat,
                k1,
                i as nat + 1,
            ) by {
                assert(ts[i as int] == texts@[i as int]@);
            }
        }
        i = i + 1;
    }
    let mut i: usize = 0;
    while i < texts.len()
        invariant
            cols > 0,
            i <= texts@.len(),
            ts == lines_view(texts@),
            widths@.len() == cols,
            forall|k: int| 0 <= k < cols ==> #[trigger] widths@[k] == column_width(ts, cols as nat, k, texts@.len()),
            s@ == columns_text(ts, cols as nat, i as nat),
        decreases texts@.len() - i,
    {
        let k = i % cols;
        push_padded_left(&mut s, &texts[i], widths[k]);
        push_char(&mut s, ' ');
        proof {
            assert(ts[i as int] == texts@[i as int]@);
        }
        if (i + 1) % cols == 0 {
            push_char(&mut s, '\n');
        }
        i = i + 1;
    }
    s
}

/// How an optional distance is printed: `None` or `Some(n)`.
pub open spec fn option_text(o: Option<u32>) -> Seq<char> {
    match o {
        None => seq!['N', 'o', 'n', 'e'],
        Some(n) => seq!['S', 'o', 'm', 'e', '('] + decimal(n as int) + seq![')'],
    }
}

fn option_chars(o: Option<u32>) -> (v: Vec<char>)
    ensures
        v@ == option_text(o),
{
    match o {
        None => {
            let v = vec!['N', 'o', 'n', 'e'];
            proof {
                assert(v@ =~= option_text(o));
            }
            v
        },
        Some(n) => {
            let mut v = vec!['S', 'o', 'm', 'e', '('];
            let digits = decimal_u64(n as u64);
            let mut i: usize = 0;
            while i < digits.len()
                invariant
                    i <= digits@.len(),
                    v@ == seq!['S', 'o', 'm', 'e', '('] + digits@.subrange(0, i as int),
                decreases digits@.len() - i,
            {
                v.push(digits[i]);
                proof {
                    assert(digits@.subrange(0, i as int + 1) =~= digits@.subrange(0, i as int).push(digits@[i as int]));
                }
                i = i + 1;
            }
            v.push(')');
            proof {
                assert(digits@.subrange(0, digits@.len() as int) =~= digits@);
                assert(v@ =~= option_text(o));
            }
            v
        },
    }
}

impl Vec2d<MapCell> {
    /// The grid with a character per cell (`#` wall, `.` goal, `r` remover, space),
    /// a line per row.
    pub fn to_string(&self) -> (s: String)
        ensures
            s@ == char_rows_text(self.data@.map_values(|c: MapCell| c.spec_char()), self.cols as nat, self.data@.len()),
    {
        let mut chars: Vec<char> = Vec::new();
        let mut i: usize = 0;
        while i < self.data.len()
            invariant
                i <= self.data@.len(),
                chars@ == self.data@.subrange(0, i as int).map_values(|c: MapCell| c.spec_char()),
            decreases self.data@.len() - i,
        {
            chars.push(self.data[i].to_char());
            proof {
                assert(self.data@.subrange(0, i as int + 1).map_values(|c: MapCell| c.spec_char())
                    =~= self.data@.subrange(0, i as int).map_values(|c: MapCell| c.spec_char()).push(self.data@[i as int].spec_char()));
            }
            i = i + 1;
        }
        proof {
            assert(self.data@.subrange(0, self.data@.len() as int) =~= self.data@);
        }
        char_grid_string(&chars, self.cols as usize)
    }
}

impl Vec2d<bool> {
    /// The grid with `1` for a true cell and `0` for a false one, a line per row.
    pub fn to_string(&self) -> (s: String)
        ensures
            s@ == char_rows_text(self.data@.map_values(|b: bool| if b { '1' } else { '0' }), self.cols as nat, self.data@.len()),
    {
        let mut chars: Vec<char> = Vec::new();
        let mut i: usize = 0;
        while i < self.data.len()
            invariant
                i <= self.data@.len(),
                chars@ == self.data@.subrange(0, i as int).map_values(|b: bool| if b { '1' } else { '0' }),
            decreases self.data@.len() - i,
        {
            chars.push(if self.data[i] { '1' } else { '0' });
            proof {
                assert(self.data@.subrange(0, i as int + 1).map_values(|b: bool| if b { '1' } else { '0' })
                    =~= self.data@.subrange(0, i as int).map_values(|b: bool| if b { '1' } else { '0' }).push(if self.data@[i as int] { '1' } else { '0' }));
            }
            i = i + 1;
        }
        proof {
            assert(self.data@.subrange(0, self.data@.len() as int) =~= self.data@);
        }
        char_grid_string(&chars, self.cols as usize)
    }
}

impl Vec2d<i32> {
    /// The grid with every number right-aligned to the longest one, a line per row.
    pub fn to_string(&self) -> (s: String)
        ensures
            s@ == table_text(
                self.data@.map_values(|n: i32| decimal(n as int)),
                self.cols as nat,
                max_text_len(self.data@.map_values(|n: i32| decimal(n as int)), self.data@.len()) as int,
                self.data@.len(),
            ),
    {
        let mut texts: Vec<Vec<char>> = Vec::new();
        let mut i: usize = 0;
        while i < self.data.len()
            invariant
                i <= self.data@.len(),
                lines_view(texts@) == self.data@.subrange(0, i as int).map_values(|n: i32| decimal(n as int)),
            decreases self.data@.len() - i,
        {
            let ghost before = texts@;
            texts.push(decimal_i64(self.data[i] as i64));
            proof {
                assert(lines_view(texts@) =~= lines_view(before).push(decimal(self.data@[i as int] as int)));
                assert(self.data@.subrange(0, i as int + 1).map_values(|n: i32| decimal(n as int))
                    =~= self.data@.subrange(0, i as int).map_values(|n: i32| decimal(n as int)).push(decimal(self.data@[i as int] as int)));
            }
            i = i + 1;
        }
        proof {
            assert(self.data@.subrange(0, self.data@.len() as int) =~= self.data@);
        }
        table_string(&texts, self.cols as usize)
    }
}

impl<'a> Vec2d<&'a str> {
    /// The grid with every text right-aligned to the longest one, a line per row.
    pub fn to_string(&self) -> (s: String)
        ensures
            s@ == table_text(
                self.data@.map_values(|t: &'a str| t@),
                self.cols as nat,
                max_text_len(self.data@.map_values(|t: &'a str| t@), self.data@.len()) as int,
                self.data@.len(),
            ),
    {
        let mut texts: Vec<Vec<char>> = Vec::new();
        let mut i: usize = 0;
        while i < self.data.len()
            invariant
                i <= self.data@.len(),
                lines_view(texts@) == self.data@.subrange(0, i as int).map_values(|t: &'a str| t@),
            decreases self.data@.len() - i,
        {
            let ghost before = texts@;
            texts.push(chars_of(self.data[i]));
            proof {
                assert(lines_view(texts@) =~= lines_view(before).push(self.data@[i as int]@));
                assert(self.data@.subrange(0, i as int + 1).map_values(|t: &'a str| t@)
                    =~= self.data@.subrange(0, i as int).map_values(|t: &'a str| t@).push(self.data@[i as int]@));
            }
            i = i + 1;
        }
        proof {
            assert(self.data@.subrange(0, self.data@.len() as int) =~= self.data@);
        }
        table_string(&texts, self.cols as usize)
    }
}

impl Vec2d<Option<u32>> {
    /// The grid with every distance (`None` or `Some(n)`) right-aligned to the longest
    /// one of its column and followed by a space, a line per row.
    pub fn to_string(&self) -> (s: String)
        ensures
            s@ == columns_text(self.data@.map_values(|o: Option<u32>| option_text(o)), self.cols as nat, self.data@.len()),
    {
        let mut texts: Vec<Vec<char>> = Vec::new();
        let mut i: usize = 0;
        while i < self.data.len()
            invariant
                i <= self.data@.len(),
                lines_view(texts@) == self.data@.subrange(0, i as int).map_values(|o: Option<u32>| option_text(o)),
            decreases self.data@.len() - i,
        {
            let ghost before = texts@;
            texts.push(option_chars(self.data[i]));
            proof {
                assert(lines_view(texts@) =~= lines_view(before).push(option_text(self.data@[i as int])));
                assert(self.data@.subrange(0, i as int + 1).map_values(|o: Option<u32>| option_text(o))
                    =~= self.data@.subrange(0, i as int).map_values(|o: Option<u32>| option_text(o)).push(option_text(self.data@[i as int])));
            }
            i = i + 1;
        }
        proof {
            assert(self.data@.subrange(0, self.data@.len() as int) =~= self.data@);
        }
        columns_string(&texts, self.cols as usize)
    }
}

} // verus!
