//! Reading a comma-separated text into a table of cells, and coercing
//! cells to numeric values with a categorical fallback.
//!
//! The text is split on commas and line breaks exactly as specified below;
//! a final line without a line break is dropped.  Numeric parsing of a
//! cell is the caller's (it needs real arithmetic), handed in as a
//! function from cell to optional bit pattern; which code a categorical
//! cell receives is decided here, and proved exact: codes number the
//! distinct unparsed labels of a column in first-seen row order.

use crate::num::NumOp;
use crate::num::num_total;
use crate::vec2d::Vec2d;
use crate::vec2d::lemma_row_end_in_bounds;
use vstd::prelude::*;
use vstd::string::StrSliceExecFns;

verus! {

/// A loaded text, held in memory whole.
#[derive(Debug, Clone)]
pub struct DataLoader {
    data: String,
}

/// The columns of the first record: one more than the commas before the
/// first line feed, scanning from `i`.
pub open spec fn spec_columns_from(s: Seq<char>, i: int) -> int
    decreases s.len() - i
        when 0 <= i <= s.len()
{
    if i >= s.len() || s[i] == '\n' {
        1
    } else {
        (if s[i] == ',' {
            1int
        } else {
            0int
        }) + spec_columns_from(s, i + 1)
    }
}

/// The column count never exceeds one more than the characters left.
proof fn lemma_columns_bound(s: Seq<char>, i: int)
    requires
        0 <= i <= s.len(),
    ensures
        1 <= spec_columns_from(s, i) <= 1 + s.len() - i,
    decreases s.len() - i,
{
    if i < s.len() && s[i] != '\n' {
        lemma_columns_bound(s, i + 1);
    }
}

/// One record read from position `i`, with cells gathered in `acc` and
/// the current cell starting at `prev`: cells split on commas, the record
/// ended by a line feed (resume after it) or a carriage return (resume
/// two positions later), and `None` when the text ends first.
pub open spec fn spec_row_from(s: Seq<char>, i: int, prev: int, acc: Seq<Seq<char>>) -> Option<
    (Seq<Seq<char>>, int),
>
    decreases s.len() - i
        when 0 <= i <= s.len()
{
    if i >= s.len() {
        None
    } else if s[i] == '\n' {
        Some((acc.push(s.subrange(prev, i)), i + 1))
    } else if s[i] == '\r' {
        Some((acc.push(s.subrange(prev, i)), i + 2))
    } else if s[i] == ',' {
        spec_row_from(s, i + 1, i + 1, acc.push(s.subrange(prev, i)))
    } else {
        spec_row_from(s, i + 1, prev, acc)
    }
}

/// The record read from position `pos`, if the text holds a complete one.
pub open spec fn spec_read_row(s: Seq<char>, pos: int) -> Option<(Seq<Seq<char>>, int)> {
    if 0 <= pos <= s.len() {
        spec_row_from(s, pos, pos, Seq::<Seq<char>>::empty())
    } else {
        None
    }
}

/// A read record resumes strictly later, and no further than one past the
/// end.
proof fn lemma_row_from_advances(s: Seq<char>, i: int, prev: int, acc: Seq<Seq<char>>)
    requires
        0 <= i <= s.len(),
        spec_row_from(s, i, prev, acc) is Some,
    ensures
        (spec_row_from(s, i, prev, acc)->0).1 > i,
        (spec_row_from(s, i, prev, acc)->0).1 <= s.len() + 1,
    decreases s.len() - i,
{
    if i < s.len() && s[i] != '\n' && s[i] != '\r' {
        if s[i] == ',' {
            lemma_row_from_advances(s, i + 1, i + 1, acc.push(s.subrange(prev, i)));
        } else {
            lemma_row_from_advances(s, i + 1, prev, acc);
        }
    }
}

/// See [`lemma_row_from_advances`], at the record level.
pub proof fn lemma_read_row_advances(s: Seq<char>, pos: int)
    requires
        spec_read_row(s, pos) is Some,
    ensures
        (spec_read_row(s, pos)->0).1 > pos,
        (spec_read_row(s, pos)->0).1 <= s.len() + 1,
{
    lemma_row_from_advances(s, pos, pos, Seq::<Seq<char>>::empty());
}

/// All cells of the text from position `pos` on, in reading order,
/// records concatenated.
pub open spec fn spec_cells(s: Seq<char>, pos: int) -> Seq<Seq<char>>
    decreases s.len() + 2 - pos
        when 0 <= pos
{
    if spec_read_row(s, pos) is Some {
        proof {
            lemma_read_row_advances(s, pos);
        }
        (spec_read_row(s, pos)->0).0 + spec_cells(s, (spec_read_row(s, pos)->0).1)
    } else {
        Seq::<Seq<char>>::empty()
    }
}

/// The views of a vector of string slices.
pub open spec fn views_of(cells: Seq<&str>) -> Seq<Seq<char>> {
    cells.map_values(|c: &str| c@)
}

/// Whether two string slices hold the same characters, decided
/// character by character.
fn str_eq(a: &str, b: &str) -> (r: bool)
    ensures
        r == (a@ == b@),
{
    let na = a.unicode_len();
    let nb = b.unicode_len();
    if na != nb {
        return false;
    }
    let mut i: usize = 0;
    while i < na
        invariant
            na == a@.len(),
            na == b@.len(),
            i <= na,
            forall|k: int| 0 <= k < i ==> a@[k] == b@[k],
        decreases na - i,
    {
        if a.get_char(i) != b.get_char(i) {
            return false;
        }
        i += 1;
    }
    proof {
        assert(a@ =~= b@);
    }
    true
}

/// The distinct unparsed labels of column `j`, gathered over the first
/// `upto` rows in row order.
pub open spec fn spec_labels(
    vs: Seq<Seq<char>>,
    ps: Seq<Option<u64>>,
    w: int,
    j: int,
    upto: int,
) -> Seq<Seq<char>>
    decreases upto,
{
    if upto <= 0 {
        Seq::<Seq<char>>::empty()
    } else {
        let prev = spec_labels(vs, ps, w, j, upto - 1);
        let k = (upto - 1) * w + j;
        if ps[k] is None && !prev.contains(vs[k]) {
            prev.push(vs[k])
        } else {
            prev
        }
    }
}

/// A label seen by some row stays seen by every later row.
proof fn lemma_labels_contains_mono(
    vs: Seq<Seq<char>>,
    ps: Seq<Option<u64>>,
    w: int,
    j: int,
    u1: int,
    u2: int,
    v: Seq<char>,
)
    requires
        u1 <= u2,
        spec_labels(vs, ps, w, j, u1).contains(v),
    ensures
        spec_labels(vs, ps, w, j, u2).contains(v),
    decreases u2 - u1,
{
    if u1 < u2 {
        lemma_labels_contains_mono(vs, ps, w, j, u1, u2 - 1, v);
        let prev = spec_labels(vs, ps, w, j, u2 - 1);
        let k = (u2 - 1) * w + j;
        if ps[k] is None && !prev.contains(vs[k]) {
            assert(spec_labels(vs, ps, w, j, u2) == prev.push(vs[k]));
            let idx = choose|idx: int| 0 <= idx < prev.len() && prev[idx] == v;
            assert(prev.push(vs[k])[idx] == v);
        }
    }
}

/// The label of an unparsed cell is among its column's labels.
proof fn lemma_label_present(
    vs: Seq<Seq<char>>,
    ps: Seq<Option<u64>>,
    w: int,
    j: int,
    r: int,
    rows: int,
)
    requires
        0 <= j < w,
        0 <= r < rows,
        ps[r * w + j] is None,
    ensures
        spec_labels(vs, ps, w, j, rows).contains(vs[r * w + j]),
{
    let prev = spec_labels(vs, ps, w, j, r);
    let k = r * w + j;
    if prev.contains(vs[k]) {
        lemma_labels_contains_mono(vs, ps, w, j, r, rows, vs[k]);
    } else {
        assert(spec_labels(vs, ps, w, j, r + 1) == prev.push(vs[k]));
        assert(prev.push(vs[k])[prev.len() as int] == vs[k]);
        assert(spec_labels(vs, ps, w, j, r + 1).contains(vs[k]));
        lemma_labels_contains_mono(vs, ps, w, j, r + 1, rows, vs[k]);
    }
}

/// The position of the first occurrence of `v` in `labels`.
pub open spec fn first_index(labels: Seq<Seq<char>>, v: Seq<char>) -> int
    decreases labels.len(),
{
    if labels.len() == 0 {
        0
    } else if labels[0] == v {
        0
    } else {
        1 + first_index(labels.drop_first(), v)
    }
}

/// A position whose earlier positions all miss `v` and which holds `v` is
/// the first occurrence.
proof fn lemma_first_index_at(labels: Seq<Seq<char>>, v: Seq<char>, m: int)
    requires
        0 <= m < labels.len(),
        labels[m] == v,
        forall|k: int| 0 <= k < m ==> labels[k] != v,
    ensures
        first_index(labels, v) == m,
    decreases m,
{
    if m > 0 {
        lemma_first_index_at(labels.drop_first(), v, m - 1);
    }
}

/// The code of cell `k` among its column's labels over all `rows` rows.
pub open spec fn spec_cell_code(
    vs: Seq<Seq<char>>,
    ps: Seq<Option<u64>>,
    w: int,
    rows: int,
    k: int,
) -> int {
    first_index(spec_labels(vs, ps, w, k % w, rows), vs[k])
}

/// Whether some label of `labels` holds the same characters as `cell`.
fn contains_label(labels: &Vec<&str>, cell: &str) -> (r: bool)
    ensures
        r == views_of(labels@).contains(cell@),
{
    let mut m: usize = 0;
    while m < labels.len()
        invariant
            m <= labels@.len(),
            forall|k: int| 0 <= k < m ==> views_of(labels@)[k] != cell@,
        decreases labels@.len() - m,
    {
        if str_eq(labels[m], cell) {
            proof {
                assert(views_of(labels@)[m as int] == cell@);
            }
            return true;
        }
        m += 1;
    }
    proof {
        assert(!views_of(labels@).contains(cell@)) by {
            if views_of(labels@).contains(cell@) {
                let k = choose|k: int|
                    0 <= k < views_of(labels@).len() && views_of(labels@)[k] == cell@;
                assert(false);
            }
        }
    }
    false
}

/// The position of the label equal to `cell`.
fn find_label(labels: &Vec<&str>, cell: &str) -> (idx: usize)
    requires
        views_of(labels@).contains(cell@),
    ensures
        idx < labels@.len(),
        idx == first_index(views_of(labels@), cell@),
{
    let mut m: usize = 0;
    while m < labels.len()
        invariant
            views_of(labels@).contains(cell@),
            m <= labels@.len(),
            forall|k: int| 0 <= k < m ==> views_of(labels@)[k] != cell@,
        decreases labels@.len() - m,
    {
        if str_eq(labels[m], cell) {
            proof {
                assert(views_of(labels@)[m as int] == cell@);
                lemma_first_index_at(views_of(labels@), cell@, m as int);
            }
            return m;
        }
        m += 1;
    }
    proof {
        let k = choose|k: int| 0 <= k < views_of(labels@).len() && views_of(labels@)[k] == cell@;
        assert(false);
    }
    unreached()
}

/// Applies the caller's numeric parse to every cell of the complete rows,
/// in row-major order.
pub fn parse_cells<'a, P: Fn(&'a str) -> Option<u64>>(input: &Vec2d<&'a str>, parse: &P) -> (r:
    Vec<Option<u64>>)
    requires
        input.width() >= 1,
        forall|c: &'a str| #[trigger] call_requires(*parse, (c,)),
    ensures
        r@.len() == input.rows() * input.width(),
        forall|k: int|
            0 <= k < r@.len() ==> call_ensures(*parse, (input.entries()[k],), #[trigger] r@[k]),
{
    let (rows, w) = input.shape();
    let mut out: Vec<Option<u64>> = Vec::new();
    let mut r_i: usize = 0;
    while r_i < rows
        invariant
            forall|c: &'a str| #[trigger] call_requires(*parse, (c,)),
            rows == input.rows(),
            w == input.width(),
            w >= 1,
            r_i <= rows,
            out@.len() == r_i * w,
            forall|k: int|
                0 <= k < out@.len() ==> call_ensures(*parse, (input.entries()[k],), #[trigger] out@[k]),
        decreases rows - r_i,
    {
        proof {
            input.lemma_entries_len();
            lemma_row_end_in_bounds(input.entries().len() as int, w as int, r_i as int);
        }
        let row = match input.get_row(r_i) {
            Some(rw) => rw,
            None => {
                proof {
                    assert(false);
                }
                unreached()
            },
        };
        let mut j: usize = 0;
        while j < w
            invariant
                forall|c: &'a str| #[trigger] call_requires(*parse, (c,)),
                rows == input.rows(),
                w == input.width(),
                r_i < rows,
                j <= w,
                r_i as int * w as int + w as int <= input.entries().len(),
                row@ == input.entries().subrange(
                    r_i as int * w as int,
                    r_i as int * w as int + w as int,
                ),
                out@.len() == r_i * w + j,
                forall|k: int|
                    0 <= k < out@.len() ==> call_ensures(
                        *parse,
                        (input.entries()[k],),
                        #[trigger] out@[k],
                    ),
            decreases w - j,
        {
            let cell = *vstd::slice::slice_index_get(row, j);
            let p = parse(cell);
            proof {
                assert(call_ensures(*parse, (cell,), p));
                assert(row@[j as int] == input.entries()[r_i as int * w as int + j as int]);
            }
            out.push(p);
            j += 1;
        }
        proof {
            assert(r_i as int * w as int + w as int == (r_i as int + 1) * w as int)
                by (nonlinear_arith);
        }
        r_i += 1;
    }
    out
}

/// Replaces each cell of the complete rows by its numeric value where
/// `parsed` holds one, and otherwise by its column's categorical code
/// (encoded as a real by the caller's arithmetic).
pub fn categorize_parsed<F: Fn(NumOp, u64, u64) -> u64>(
    input: &Vec2d<&str>,
    parsed: &Vec<Option<u64>>,
    num: &F,
) -> (r: Vec2d<u64>)
    requires
        input.width() >= 1,
        parsed@.len() == input.rows() * input.width(),
        num_total(*num),
    ensures
        r.width() == input.width(),
        r.entries().len() == input.rows() * input.width(),
        forall|k: int|
            0 <= k < r.entries().len() ==> match parsed@[k] {
                Some(v) => r.entries()[k] == v,
                None => call_ensures(
                    *num,
                    (
                        NumOp::OfCount,
                        spec_cell_code(
                            views_of(input.entries()),
                            parsed@,
                            input.width() as int,
                            input.rows() as int,
                            k,
                        ) as u64,
                        0u64,
                    ),
                    #[trigger] r.entries()[k],
                ),
            },
{
    let ghost vs = views_of(input.entries());
    let ghost ps = parsed@;
    let (rows, w) = input.shape();
    let mut labels: Vec<Vec<&str>> = Vec::new();
    let mut j: usize = 0;
    while j < w
        invariant
            rows == input.rows(),
            w == input.width(),
            w >= 1,
            vs == views_of(input.entries()),
            ps == parsed@,
            ps.len() == rows * w,
            j <= w,
            labels@.len() == j,
            forall|j2: int|
                0 <= j2 < j ==> views_of((#[trigger] labels@[j2])@) == spec_labels(
                    vs,
                    ps,
                    w as int,
                    j2,
                    rows as int,
                ),
        decreases w - j,
    {
        let mut col_labels: Vec<&str> = Vec::new();
        let mut r_i: usize = 0;
        proof {
            assert(views_of(col_labels@) =~= Seq::<Seq<char>>::empty());
        }
        while r_i < rows
            invariant
                rows == input.rows(),
                w == input.width(),
                j < w,
                vs == views_of(input.entries()),
                ps == parsed@,
                ps.len() == rows * w,
                r_i <= rows,
                views_of(col_labels@) == spec_labels(vs, ps, w as int, j as int, r_i as int),
            decreases rows - r_i,
        {
            proof {
                input.lemma_entries_len();
                lemma_row_end_in_bounds(input.entries().len() as int, w as int, r_i as int);
            }
            let row = match input.get_row(r_i) {
                Some(rw) => rw,
                None => {
                    proof {
                        assert(false);
                    }
                    unreached()
                },
            };
            let k = r_i * w + j;
            let cell = *vstd::slice::slice_index_get(row, j);
            proof {
                assert(row@[j as int] == input.entries()[k as int]);
                assert(cell@ == vs[k as int]);
                assert(k < ps.len()) by {
                    assert((r_i as int) * (w as int) + (j as int) < (rows as int) * (w as int))
                        by (nonlinear_arith)
                        requires
                            0 <= (r_i as int) < (rows as int),
                            0 <= (j as int) < (w as int),
                    ;
                }
            }
            match parsed[k] {
                Some(_) => {
                    proof {
                        assert(views_of(col_labels@) =~= spec_labels(
                            vs,
                            ps,
                            w as int,
                            j as int,
                            r_i + 1 as int,
                        ));
                    }
                },
                None => {
                    let seen = contains_label(&col_labels, cell);
                    if !seen {
                        let ghost before = col_labels@;
                        col_labels.push(cell);
                        proof {
                            assert(views_of(col_labels@) =~= views_of(before).push(cell@));
                        }
                    }
                    proof {
                        assert(views_of(col_labels@) =~= spec_labels(
                            vs,
                            ps,
                            w as int,
                            j as int,
                            r_i + 1 as int,
                        ));
                    }
                },
            }
            r_i += 1;
        }
        labels.push(col_labels);
        j += 1;
    }
    let mut out: Vec2d<u64> = Vec2d::new(w);
    let mut r_i: usize = 0;
    while r_i < rows
        invariant
            num_total(*num),
            rows == input.rows(),
            w == input.width(),
            w >= 1,
            vs == views_of(input.entries()),
            ps == parsed@,
            ps.len() == rows * w,
            labels@.len() == w,
            forall|j2: int|
                0 <= j2 < w ==> views_of((#[trigger] labels@[j2])@) == spec_labels(
                    vs,
                    ps,
                    w as int,
                    j2,
                    rows as int,
                ),
            r_i <= rows,
            out.width() == w,
            out.entries().len() == r_i * w,
            forall|k: int|
                0 <= k < out.entries().len() ==> match ps[k] {
                    Some(v) => out.entries()[k] == v,
                    None => call_ensures(
                        *num,
                        (
                            NumOp::OfCount,
                            spec_cell_code(vs, ps, w as int, rows as int, k) as u64,
                            0u64,
                        ),
                        #[trigger] out.entries()[k],
                    ),
                },
        decreases rows - r_i,
    {
        proof {
            input.lemma_entries_len();
            lemma_row_end_in_bounds(input.entries().len() as int, w as int, r_i as int);
        }
        let row = match input.get_row(r_i) {
            Some(rw) => rw,
            None => {
                proof {
                    assert(false);
                }
                unreached()
            },
        };
        let mut j: usize = 0;
        while j < w
            invariant
                num_total(*num),
                rows == input.rows(),
                w == input.width(),
                w >= 1,
                r_i < rows,
                vs == views_of(input.entries()),
                ps == parsed@,
                ps.len() == rows * w,
                input.entries().len() <= usize::MAX,
                r_i as int * w as int + w as int <= input.entries().len(),
                row@ == input.entries().subrange(
                    r_i as int * w as int,
                    r_i as int * w as int + w as int,
                ),
                labels@.len() == w,
                forall|j2: int|
                    0 <= j2 < w ==> views_of((#[trigger] labels@[j2])@) == spec_labels(
                        vs,
                        ps,
                        w as int,
                        j2,
                        rows as int,
                    ),
                j <= w,
                out.width() == w,
                out.entries().len() == r_i * w + j,
                forall|k: int|
                    0 <= k < out.entries().len() ==> match ps[k] {
                        Some(v) => out.entries()[k] == v,
                        None => call_ensures(
                            *num,
                            (
                                NumOp::OfCount,
                                spec_cell_code(vs, ps, w as int, rows as int, k) as u64,
                                0u64,
                            ),
                            #[trigger] out.entries()[k],
                        ),
                    },
            decreases w - j,
        {
            let k = r_i * w + j;
            let cell = *vstd::slice::slice_index_get(row, j);
            proof {
                assert(row@[j as int] == input.entries()[k as int]);
                assert(cell@ == vs[k as int]);
                assert(k < ps.len()) by {
                    assert((r_i as int) * (w as int) + (j as int) < (rows as int) * (w as int)) by (nonlinear_arith)
                        requires
                            0 <= (r_i as int) < (rows as int),
                            0 <= (j as int) < (w as int),
                    ;
                }
                assert((k as int) % (w as int) == j as int) by (nonlinear_arith)
                    requires
                        k as int == r_i as int * w as int + j as int,
                        0 <= (j as int) < (w as int),
                        w as int >= 1,
                ;
            }
            let value = match parsed[k] {
                Some(v) => v,
                None => {
                    proof {
                        lemma_label_present(vs, ps, w as int, j as int, r_i as int, rows as int);
                    }
                    let code = find_label(&labels[j], cell);
                    let c_bits = num(NumOp::OfCount, code as u64, 0);
                    proof {
                        assert(call_ensures(*num, (NumOp::OfCount, code as u64, 0u64), c_bits));
                        assert(code as int == spec_cell_code(vs, ps, w as int, rows as int, k as int));
                    }
                    c_bits
                },
            };
            out.push(value);
            j += 1;
        }
        proof {
            assert(r_i as int * w as int + w as int == (r_i as int + 1) * w as int)
                by (nonlinear_arith);
        }
        r_i += 1;
    }
    out
}

/// `out` is a categorisation of `cells` (read as a row-major table of
/// `w` columns): some matrix of parse outcomes, one the parse function
/// allows for each cell, explains every output cell, numeric outcomes
/// copied and the rest coded by first-seen column labels.
pub open spec fn categorized_rel<'a, P: Fn(&'a str) -> Option<u64>, F: Fn(NumOp, u64, u64) -> u64>(
    parse: P,
    num: F,
    cells: Seq<&'a str>,
    w: int,
    out: Vec2d<u64>,
) -> bool {
    let rows = cells.len() as int / w;
    &&& out.width() == w
    &&& out.entries().len() == rows * w
    &&& exists|pmat: Seq<Option<u64>>|
        #![trigger pmat.len()]
        {
            &&& pmat.len() == rows * w
            &&& (forall|k: int|
                0 <= k < pmat.len() ==> call_ensures(parse, (cells[k],), #[trigger] pmat[k]))
            &&& (forall|k: int|
                0 <= k < out.entries().len() ==> match pmat[k] {
                    Some(v) => out.entries()[k] == v,
                    None => call_ensures(
                        num,
                        (
                            NumOp::OfCount,
                            spec_cell_code(views_of(cells), pmat, w, rows, k) as u64,
                            0u64,
                        ),
                        #[trigger] out.entries()[k],
                    ),
                })
        }
}

/// Coerces every cell of the complete rows to a numeric value: its
/// parse where the cell parses, else the first-seen categorical code of
/// its column, encoded as a real value.
pub fn categorize_cols<'a, P: Fn(&'a str) -> Option<u64>, F: Fn(NumOp, u64, u64) -> u64>(
    input: Vec2d<&'a str>,
    parse: &P,
    num: &F,
) -> (r: Vec2d<u64>)
    requires
        input.width() >= 1,
        forall|c: &'a str| #[trigger] call_requires(*parse, (c,)),
        num_total(*num),
    ensures
        categorized_rel(*parse, *num, input.entries(), input.width() as int, r),
{
    let parsed = parse_cells(&input, parse);
    let r = categorize_parsed(&input, &parsed, num);
    proof {
        let ghost pmat = parsed@;
        assert(pmat.len() == input.rows() * input.width());
        assert(input.rows() as int == input.entries().len() as int / input.width() as int);
    }
    r
}

impl DataLoader {
    /// The loaded text, as characters.
    pub closed spec fn text(&self) -> Seq<char> {
        self.data@
    }

    /// Wraps a text already read into memory.
    pub fn from_text(data: String) -> (r: DataLoader)
        ensures
            r.text() == data@,
    {
        DataLoader { data }
    }

    /// Counts the columns of the first record.
    pub fn columns(&self) -> (r: usize)
        requires
            self.text().len() < usize::MAX,
        ensures
            r == spec_columns_from(self.text(), 0),
    {
        let s = self.data.as_str();
        let n = s.unicode_len();
        let mut i: usize = 0;
        let mut n_cols: usize = 1;
        proof {
            lemma_columns_bound(self.text(), 0);
        }
        while i < n
            invariant
                n == self.text().len(),
                n < usize::MAX,
                i <= n,
                n_cols <= 1 + i,
                s@ == self.text(),
                spec_columns_from(self.text(), 0) == n_cols - 1 + spec_columns_from(
                    self.text(),
                    i as int,
                ),
                i < n ==> forall|k: int| 0 <= k < i ==> self.text()[k] != '\n',
            decreases n - i,
        {
            let c = s.get_char(i);
            if c == '\n' {
                proof {
                    assert(spec_columns_from(self.text(), i as int) == 1);
                }
                return n_cols;
            }
            if c == ',' {
                n_cols += 1;
            }
            i += 1;
        }
        proof {
            assert(spec_columns_from(self.text(), n as int) == 1);
        }
        n_cols
    }

    /// Reads the record starting at `read_position`: its cells, and the
    /// position where the next record starts.
    fn read_row(&self, read_position: usize) -> (r: Option<(Vec<&str>, usize)>)
        requires
            self.text().len() + 2 <= usize::MAX,
        ensures
            r is Some <==> spec_read_row(self.text(), read_position as int) is Some,
            r is Some ==> {
                let (cells, p2) = spec_read_row(self.text(), read_position as int)->0;
                &&& (r->0).1 == p2
                &&& views_of((r->0).0@) == cells
            },
    {
        let s = self.data.as_str();
        let n = s.unicode_len();
        if read_position > n {
            return None;
        }
        let mut i: usize = read_position;
        let mut prev_break: usize = read_position;
        let mut res: Vec<&str> = Vec::new();
        proof {
            assert(views_of(res@) =~= Seq::<Seq<char>>::empty());
        }
        while i < n
            invariant
                n == self.text().len(),
                n + 2 <= usize::MAX,
                s@ == self.text(),
                read_position <= prev_break <= i <= n,
                spec_read_row(self.text(), read_position as int) == spec_row_from(
                    self.text(),
                    i as int,
                    prev_break as int,
                    views_of(res@),
                ),
            decreases n - i,
        {
            let c = s.get_char(i);
            if c == '\n' {
                let cell = s.substring_char(prev_break, i);
                let ghost before = res@;
                res.push(cell);
                proof {
                    assert(views_of(res@) =~= views_of(before).push(cell@));
                }
                return Some((res, i + 1));
            } else if c == '\r' {
                let cell = s.substring_char(prev_break, i);
                let ghost before = res@;
                res.push(cell);
                proof {
                    assert(views_of(res@) =~= views_of(before).push(cell@));
                }
                return Some((res, i + 2));
            } else if c == ',' {
                let cell = s.substring_char(prev_break, i);
                let ghost before = res@;
                res.push(cell);
                proof {
                    assert(views_of(res@) =~= views_of(before).push(cell@));
                }
                prev_break = i + 1;
                i += 1;
            } else {
                i += 1;
            }
        }
        None
    }

    /// Splits the whole text into a table of cells: the column count of
    /// the first record, and every complete record's cells appended in
    /// reading order.
    pub fn vec2d(&self) -> (r: Vec2d<&str>)
        requires
            self.text().len() + 2 <= usize::MAX,
        ensures
            r.width() == spec_columns_from(self.text(), 0),
            r.entries().len() == spec_cells(self.text(), 0).len(),
            forall|k: int|
                0 <= k < r.entries().len() ==> (#[trigger] r.entries()[k])@ == spec_cells(
                    self.text(),
                    0,
                )[k],
    {
        let cols = self.columns();
        let mut res: Vec2d<&str> = Vec2d::new(cols);
        let mut read_position: usize = 0;
        loop
            invariant_except_break
                self.text().len() + 2 <= usize::MAX,
                read_position <= self.text().len() + 1,
                res.width() == spec_columns_from(self.text(), 0),
                views_of(res.entries()) + spec_cells(self.text(), read_position as int)
                    == spec_cells(self.text(), 0),
            ensures
                res.width() == spec_columns_from(self.text(), 0),
                views_of(res.entries()) == spec_cells(self.text(), 0),
            decreases self.text().len() + 2 - read_position,
        {
            let row = match self.read_row(read_position) {
                Some(pair) => pair,
                None => {
                    proof {
                        assert(views_of(res.entries()) =~= views_of(res.entries()) + spec_cells(
                            self.text(),
                            read_position as int,
                        ));
                    }
                    break ;
                },
            };
            let ghost before = res.entries();
            res.push_slice(row.0.as_slice());
            proof {
                lemma_read_row_advances(self.text(), read_position as int);
                assert(views_of(res.entries()) =~= views_of(before) + views_of(row.0@));
                assert(views_of(res.entries()) + spec_cells(self.text(), row.1 as int)
                    =~= spec_cells(self.text(), 0));
            }
            read_position = row.1;
        }
        proof {
            assert forall|k: int| 0 <= k < res.entries().len() implies (#[trigger] res.entries()[k])@
                == spec_cells(self.text(), 0)[k] by {
                assert(views_of(res.entries())[k] == res.entries()[k]@);
            }
        }
        res
    }

    /// Reads the table from the text and coerces its cells to numeric
    /// values, as [`categorize_cols`] does.
    pub fn categorize_cols<'a, P: Fn(&'a str) -> Option<u64>, F: Fn(NumOp, u64, u64) -> u64>(
        &'a self,
        parse: &P,
        num: &F,
    ) -> (r: Vec2d<u64>)
        requires
            self.text().len() + 2 <= usize::MAX,
            forall|c: &'a str| #[trigger] call_requires(*parse, (c,)),
            num_total(*num),
        ensures
            exists|cells: Seq<&'a str>|
                #![trigger views_of(cells)]
                views_of(cells) == spec_cells(self.text(), 0) && categorized_rel(
                    *parse,
                    *num,
                    cells,
                    spec_columns_from(self.text(), 0),
                    r,
                ),
    {
        let table = self.vec2d();
        proof {
            lemma_columns_bound(self.text(), 0);
        }
        let ghost cells = table.entries();
        let r = categorize_cols(table, parse, num);
        proof {
            assert(views_of(cells) =~= spec_cells(self.text(), 0)) by {
                assert forall|k: int| 0 <= k < cells.len() implies views_of(cells)[k]
                    == spec_cells(self.text(), 0)[k] by {
                    assert(views_of(cells)[k] == cells[k]@);
                }
            }
        }
        r
    }
}

} // verus!
