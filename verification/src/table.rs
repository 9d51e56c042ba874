//! Pipe-delimited tables: the row shape, cell extraction, alignment
//! markers, and the assembly of header and body.
//!
//! A cell is scanned from the current position: an optional single
//! whitespace character is skipped, then the shortest non-empty span up
//! to a closing `|` (which may itself absorb one whitespace character
//! just before it) is taken; the cell text is trimmed of surrounding
//! whitespace afterwards.
use crate::node::{heads_view, Align, Table, TableHead, TableHeadV, TableV};
use crate::util::{
    is_ws,
    is_ws_char,
    lemma_skip_ws_from,
    skip_ws,
    skip_ws_from,
    subvec_strings,
};
use vstd::prelude::*;

verus! {

/// A table row: at least three characters, the first and the last a
/// `|`.
pub open spec fn is_table_spec(s: Seq<char>) -> bool {
    s.len() >= 3 && s[0] == '|' && s[s.len() - 1] == '|'
}

/// Decides whether a line has the table-row shape.
pub fn is_table_block_start(input: &String) -> (r: bool)
    ensures
        r == is_table_spec(input@),
{
    let s = input.as_str();
    let n = s.unicode_len();
    n >= 3 && s.get_char(0) == '|' && s.get_char(n - 1) == '|'
}

/// Holds at positions where a cell's closing `|` begins: either the
/// `|` itself, or one whitespace character directly before a `|`.
pub open spec fn term_at(t: Seq<char>, e: int) -> bool {
    t[e] == '|' || (is_ws(t[e]) && e + 1 < t.len() && t[e + 1] == '|')
}

/// The smallest index `k >= e` where a cell terminator begins, or
/// `t.len()` when there is none.
pub open spec fn term_pos_from(t: Seq<char>, e: int) -> int
    decreases t.len() - e,
{
    if !(0 <= e && e < t.len()) {
        t.len() as int
    } else if term_at(t, e) {
        e
    } else {
        term_pos_from(t, e + 1)
    }
}

pub proof fn lemma_term_pos_from(t: Seq<char>, e: int)
    requires
        0 <= e,
    ensures
        e <= term_pos_from(t, e) || term_pos_from(t, e) == t.len(),
        term_pos_from(t, e) <= t.len(),
        term_pos_from(t, e) < t.len() ==> term_at(t, term_pos_from(t, e)) && e <= term_pos_from(
            t,
            e,
        ),
        forall|j: int| e <= j < term_pos_from(t, e) ==> !term_at(t, j),
    decreases t.len() - e,
{
    if 0 <= e && e < t.len() && !term_at(t, e) {
        lemma_term_pos_from(t, e + 1);
    }
}

/// Finds the first cell terminator at index `from` or later.
fn term_find(s: &str, from: usize) -> (r: usize)
    ensures
        r as int == term_pos_from(s@, from as int),
{
    proof {
        lemma_term_pos_from(s@, from as int);
    }
    let n = s.unicode_len();
    if from >= n {
        return n;
    }
    let mut i: usize = from;
    while i < n
        invariant
            from <= i <= n,
            n == s@.len(),
            forall|j: int| from <= j < i ==> !term_at(s@, j),
            term_pos_from(s@, from as int) >= i,
        decreases n - i,
    {
        let c = s.get_char(i);
        let hit = if c == '|' {
            true
        } else if is_ws_char(c) && i + 1 < n {
            s.get_char(i + 1) == '|'
        } else {
            false
        };
        if hit {
            proof {
                assert(term_at(s@, i as int));
                lemma_term_pos_from(s@, from as int);
            }
            return i;
        }
        proof {
            assert(!term_at(s@, i as int));
            lemma_term_pos_from(s@, from as int);
        }
        i = i + 1;
    }
    i
}

/// The index just past the trailing whitespace-free part of `s`: the
/// length of `s` with its trailing whitespace removed.
pub open spec fn end_trim(s: Seq<char>) -> int
    decreases s.len(),
{
    if s.len() == 0 {
        0
    } else if is_ws(s.last()) {
        end_trim(s.drop_last())
    } else {
        s.len() as int
    }
}

pub proof fn lemma_end_trim(s: Seq<char>)
    ensures
        0 <= end_trim(s) <= s.len(),
        end_trim(s) > 0 ==> !is_ws(s[end_trim(s) - 1]),
        forall|j: int| end_trim(s) <= j < s.len() ==> is_ws(s[j]),
    decreases s.len(),
{
    if s.len() > 0 && is_ws(s.last()) {
        lemma_end_trim(s.drop_last());
        assert(forall|j: int| 0 <= j < s.len() - 1 ==> s.drop_last()[j] == s[j]);
    }
}

/// `s` with its surrounding whitespace removed.
pub open spec fn trim_spec(s: Seq<char>) -> Seq<char> {
    let a = skip_ws_from(s, 0);
    let e = end_trim(s);
    if a < e {
        s.subrange(a, e)
    } else {
        Seq::empty()
    }
}

/// Trims surrounding whitespace from a cell's text.
fn trim_string(input: &String) -> (r: String)
    ensures
        r@ == trim_spec(input@),
{
    let s = input.as_str();
    let n = s.unicode_len();
    let a = skip_ws(s, 0);
    proof {
        lemma_skip_ws_from(s@, 0);
        lemma_end_trim(s@);
    }
    let mut e: usize = n;
    loop
        invariant
            0 <= e <= n,
            n == s@.len(),
            s@ == input@,
            forall|j: int| e <= j < n ==> is_ws(s@[j]),
            end_trim(s@) <= e,
        ensures
            e as int == end_trim(input@),
        decreases e,
    {
        if e == 0 {
            proof {
                lemma_end_trim(s@);
            }
            break;
        }
        let c = s.get_char(e - 1);
        if !is_ws_char(c) {
            proof {
                lemma_end_trim(s@);
            }
            break;
        }
        proof {
            lemma_end_trim(s@);
        }
        e = e - 1;
    }
    if a < e {
        let r = s.substring_char(a, e);
        proof {
            assert(r@ =~= input@.subrange(a as int, e as int));
        }
        r.to_owned()
    } else {
        let r = String::new();
        proof {
            assert(r@ =~= Seq::<char>::empty());
        }
        r
    }
}

/// The cell match at position `p` of a row's inner text: the trimmed
/// span and the position where the scan resumes, or nothing when no
/// cell starts at `p`.
pub open spec fn cell_match(t: Seq<char>, p: int) -> Option<(Seq<char>, int)> {
    if !(0 <= p && p < t.len()) {
        None
    } else if is_ws(t[p]) && term_pos_from(t, p + 2) < t.len() {
        let e = term_pos_from(t, p + 2);
        Some(
            (
                t.subrange(p + 1, e),
                e + (if t[e] == '|' {
                    1int
                } else {
                    2int
                }),
            ),
        )
    } else if term_pos_from(t, p + 1) < t.len() {
        let e = term_pos_from(t, p + 1);
        Some(
            (
                t.subrange(p, e),
                e + (if t[e] == '|' {
                    1int
                } else {
                    2int
                }),
            ),
        )
    } else {
        None
    }
}

pub proof fn lemma_cell_match_bounds(t: Seq<char>, p: int)
    requires
        0 <= p < t.len(),
        cell_match(t, p) is Some,
    ensures
        p < cell_match(t, p)->Some_0.1 <= t.len(),
{
    lemma_term_pos_from(t, p + 2);
    lemma_term_pos_from(t, p + 1);
}

/// The trimmed cells of a row's inner text, from position `p` on.
pub open spec fn cells_from(t: Seq<char>, p: int) -> Seq<Seq<char>>
    decreases t.len() - p,
{
    if !(0 <= p && p < t.len()) {
        Seq::empty()
    } else {
        match cell_match(t, p) {
            Some(m) => {
                let next = if p < m.1 && m.1 <= t.len() {
                    m.1
                } else {
                    p + 1
                };
                seq![trim_spec(m.0)] + cells_from(t, next)
            },
            None => cells_from(t, p + 1),
        }
    }
}

/// The trimmed cells of a row's inner text.
pub open spec fn table_cells(t: Seq<char>) -> Seq<Seq<char>> {
    cells_from(t, 0)
}

/// Extracts the trimmed cells of a row's inner text (the row without
/// its leading `|`).
pub fn get_table_column_name(input: &String) -> (r: Vec<String>)
    ensures
        r.deep_view() == table_cells(input@),
{
    let s = input.as_str();
    let n = s.unicode_len();
    let mut r: Vec<String> = Vec::new();
    let mut p: usize = 0;
    proof {
        assert(r.deep_view() =~= Seq::<Seq<char>>::empty());
    }
    while p < n
        invariant
            0 <= p,
            n == s@.len(),
            s@ == input@,
            table_cells(input@) == r.deep_view() + cells_from(input@, p as int),
        decreases n - p,
    {
        let mut advanced = false;
        let c = s.get_char(p);
        let ghost old_dv = r.deep_view();
        if is_ws_char(c) && n - p >= 2 {
            let e = term_find(s, p + 2);
            proof {
                lemma_term_pos_from(s@, p as int + 2);
            }
            if e < n {
                let cap = s.substring_char(p + 1, e);
                let cell = trim_string(&cap.to_owned());
                r.push(cell);
                let step: usize = if s.get_char(e) == '|' {
                    1
                } else {
                    2
                };
                proof {
                    assert(cap@ =~= input@.subrange(p as int + 1, e as int));
                    lemma_cell_match_bounds(input@, p as int);
                    assert(r.deep_view() =~= old_dv.push(trim_spec(
                        cell_match(input@, p as int)->Some_0.0,
                    )));
                    assert(old_dv + cells_from(input@, p as int) =~= r.deep_view() + cells_from(
                        input@,
                        e + step,
                    ));
                }
                p = e + step;
                advanced = true;
            }
        }
        if !advanced {
            let e = term_find(s, p + 1);
            proof {
                lemma_term_pos_from(s@, p as int + 1);
            }
            if e < n {
                proof {
                    if is_ws(input@[p as int]) {
                        assert(term_pos_from(input@, p as int + 2) == input@.len());
                        assert(cell_match(input@, p as int) == (if term_pos_from(
                            input@,
                            p as int + 1,
                        ) < input@.len() {
                            let ee = term_pos_from(input@, p as int + 1);
                            Some(
                                (
                                    input@.subrange(p as int, ee),
                                    ee + (if input@[ee] == '|' {
                                        1int
                                    } else {
                                        2int
                                    }),
                                ),
                            )
                        } else {
                            None
                        }));
                    }
                }
                let cap = s.substring_char(p, e);
                let cell = trim_string(&cap.to_owned());
                r.push(cell);
                let step: usize = if s.get_char(e) == '|' {
                    1
                } else {
                    2
                };
                proof {
                    assert(cap@ =~= input@.subrange(p as int, e as int));
                    lemma_cell_match_bounds(input@, p as int);
                    assert(r.deep_view() =~= old_dv.push(trim_spec(
                        cell_match(input@, p as int)->Some_0.0,
                    )));
                    assert(old_dv + cells_from(input@, p as int) =~= r.deep_view() + cells_from(
                        input@,
                        e + step,
                    ));
                }
                p = e + step;
            } else {
                proof {
                    assert(cell_match(input@, p as int) is None);
                }
                p = p + 1;
            }
        }
    }
    proof {
        assert(cells_from(input@, p as int) =~= Seq::<Seq<char>>::empty());
        assert(r.deep_view() =~= r.deep_view() + Seq::<Seq<char>>::empty());
    }
    r
}

/// A left marker: `:` followed by one or more `-`.
pub open spec fn is_left_marker(c: Seq<char>) -> bool {
    c.len() >= 2 && c[0] == ':' && (forall|i: int| 1 <= i < c.len() ==> c[i] == '-')
}

/// A right marker: one or more `-` followed by `:`.
pub open spec fn is_right_marker(c: Seq<char>) -> bool {
    c.len() >= 2 && c[c.len() - 1] == ':' && (forall|i: int| 0 <= i < c.len() - 1 ==> c[i] == '-')
}

/// A center marker: `:`, one or more `-`, then `:`.
pub open spec fn is_center_marker(c: Seq<char>) -> bool {
    c.len() >= 3 && c[0] == ':' && c[c.len() - 1] == ':' && (forall|i: int|
        1 <= i < c.len() - 1 ==> c[i] == '-')
}

/// The alignment of one marker cell, or nothing for any other cell
/// shape.
pub open spec fn align_of_cell(c: Seq<char>) -> Option<Align> {
    if is_left_marker(c) {
        Some(Align::Left)
    } else if is_right_marker(c) {
        Some(Align::Right)
    } else if is_center_marker(c) {
        Some(Align::Center)
    } else {
        None
    }
}

/// The alignments of the marker cells of an alignment row, in order;
/// a cell of any other shape contributes none.
pub open spec fn col_aligns(cells: Seq<Seq<char>>) -> Seq<Align>
    decreases cells.len(),
{
    if cells.len() == 0 {
        Seq::empty()
    } else {
        match align_of_cell(cells.first()) {
            Some(a) => seq![a] + col_aligns(cells.drop_first()),
            None => col_aligns(cells.drop_first()),
        }
    }
}

/// Decides whether every character of `input` in `[from, to)` is `c`.
fn all_char_in(s: &str, from: usize, to: usize, c: char) -> (r: bool)
    requires
        from <= to <= s@.len(),
    ensures
        r == (forall|i: int| from <= i < to ==> s@[i] == c),
{
    let mut i: usize = from;
    while i < to
        invariant
            from <= i <= to,
            to <= s@.len(),
            forall|j: int| from <= j < i ==> s@[j] == c,
        decreases to - i,
    {
        if s.get_char(i) != c {
            return false;
        }
        i = i + 1;
    }
    true
}

/// The alignment of one marker cell, or nothing.
fn cell_align(input: &String) -> (r: Option<Align>)
    ensures
        r == align_of_cell(input@),
{
    let s = input.as_str();
    let n = s.unicode_len();
    if n >= 2 && s.get_char(0) == ':' && all_char_in(s, 1, n, '-') {
        return Some(Align::Left);
    }
    proof {
        assert(!is_left_marker(input@));
    }
    if n >= 2 && s.get_char(n - 1) == ':' && all_char_in(s, 0, n - 1, '-') {
        return Some(Align::Right);
    }
    proof {
        assert(!is_right_marker(input@));
    }
    if n >= 3 && s.get_char(0) == ':' && s.get_char(n - 1) == ':' && all_char_in(s, 1, n - 1, '-') {
        return Some(Align::Center);
    }
    proof {
        assert(!is_center_marker(input@));
    }
    None
}

/// Extracts the column alignments of an alignment row's inner text.
pub fn get_column_align(input: &String) -> (r: Vec<Align>)
    ensures
        r@ == col_aligns(table_cells(input@)),
{
    let cells = get_table_column_name(input);
    let ghost cv = cells.deep_view();
    let mut r: Vec<Align> = Vec::new();
    let mut i: usize = 0;
    proof {
        assert(cv.skip(0) =~= cv);
        assert(r@ =~= Seq::<Align>::empty());
    }
    while i < cells.len()
        invariant
            i <= cells.len(),
            cv == cells.deep_view(),
            col_aligns(cv) == r@ + col_aligns(cv.skip(i as int)),
        decreases cells.len() - i,
    {
        let ghost old_r = r@;
        match cell_align(&cells[i]) {
            Some(a) => {
                r.push(a);
            },
            None => {},
        }
        proof {
            assert(cells[i as int]@ == cv[i as int]);
            assert(cv.skip(i as int).first() == cv[i as int]);
            assert(cv.skip(i as int).drop_first() =~= cv.skip(i as int + 1));
            match align_of_cell(cv[i as int]) {
                Some(a) => {
                    assert(old_r + (seq![a] + col_aligns(cv.skip(i as int + 1))) =~= r@
                        + col_aligns(cv.skip(i as int + 1)));
                },
                None => {},
            }
        }
        i = i + 1;
    }
    proof {
        assert(col_aligns(cv.skip(cells.len() as int)) =~= Seq::<Align>::empty());
        assert(r@ + Seq::<Align>::empty() =~= r@);
    }
    r
}

/// The header cells of a header row line (with its leading `|`).
pub open spec fn head_cells(s: Seq<char>) -> Seq<Seq<char>> {
    table_cells(s.skip(1))
}

/// The column alignments of an alignment row line (with its leading
/// `|`).
pub open spec fn row_aligns(s: Seq<char>) -> Seq<Align> {
    col_aligns(table_cells(s.skip(1)))
}

/// The header of a table: each header cell paired with its column's
/// alignment.
pub open spec fn head_info(h: Seq<Seq<char>>, a: Seq<Align>) -> Seq<TableHeadV> {
    Seq::new(h.len(), |i: int| TableHeadV { cell: h[i], align: a[i] })
}

/// Builds the header from the header row and the alignment row.
fn get_table_head_info(input: Vec<String>) -> (r: Vec<TableHead>)
    requires
        input.deep_view().len() >= 2,
        input.deep_view()[0].len() >= 1,
        input.deep_view()[1].len() >= 1,
        row_aligns(input.deep_view()[1]).len() >= head_cells(input.deep_view()[0]).len(),
    ensures
        heads_view(r@) == head_info(
            head_cells(input.deep_view()[0]),
            row_aligns(input.deep_view()[1]),
        ),
{
    let ghost dv = input.deep_view();
    let s0 = input[0].as_str();
    let line0 = s0.substring_char(1, s0.unicode_len()).to_owned();
    let s1 = input[1].as_str();
    let line1 = s1.substring_char(1, s1.unicode_len()).to_owned();
    proof {
        assert(line0@ =~= dv[0].skip(1));
        assert(line1@ =~= dv[1].skip(1));
    }
    let head = get_table_column_name(&line0);
    let align = get_column_align(&line1);
    let mut r: Vec<TableHead> = Vec::new();
    let mut i: usize = 0;
    while i < head.len()
        invariant
            i <= head.len(),
            head.deep_view() == head_cells(dv[0]),
            align@ == row_aligns(dv[1]),
            align.len() >= head.len(),
            heads_view(r@) =~= head_info(head_cells(dv[0]), row_aligns(dv[1])).take(i as int),
        decreases head.len() - i,
    {
        let ghost old_r = r@;
        let h = TableHead::new(head[i].clone(), align[i]);
        r.push(h);
        proof {
            assert(head[i as int]@ == head.deep_view()[i as int]);
            assert(heads_view(r@) =~= heads_view(old_r).push(h@));
            assert(heads_view(r@) =~= head_info(head_cells(dv[0]), row_aligns(dv[1])).take(
                i as int + 1,
            ));
        }
        i = i + 1;
    }
    proof {
        assert(head_info(head_cells(dv[0]), row_aligns(dv[1])).take(head.len() as int)
            =~= head_info(head_cells(dv[0]), row_aligns(dv[1])));
    }
    r
}

/// The number of leading lines of `v` that have the table-row shape.
pub open spec fn table_body_count(v: Seq<Seq<char>>) -> int
    decreases v.len(),
{
    if v.len() == 0 || !is_table_spec(v.first()) {
        0
    } else {
        1 + table_body_count(v.drop_first())
    }
}

/// The trimmed cell rows of the leading table-shaped lines of `v`.
pub open spec fn table_body_rows(v: Seq<Seq<char>>) -> Seq<Seq<Seq<char>>>
    decreases v.len(),
{
    if v.len() == 0 || !is_table_spec(v.first()) {
        Seq::empty()
    } else {
        seq![table_cells(v.first().skip(1))] + table_body_rows(v.drop_first())
    }
}

pub proof fn lemma_table_body_count(v: Seq<Seq<char>>)
    ensures
        0 <= table_body_count(v) <= v.len(),
    decreases v.len(),
{
    if v.len() > 0 && is_table_spec(v.first()) {
        lemma_table_body_count(v.drop_first());
    }
}

/// Consumes the leading table-shaped lines as body rows; the second
/// result is how many lines were consumed.
fn parse_table_body(input: Vec<String>) -> (r: (Vec<Vec<String>>, usize))
    ensures
        r.0.deep_view() == table_body_rows(input.deep_view()),
        r.1 as int == table_body_count(input.deep_view()),
{
    let ghost dv = input.deep_view();
    let mut rows: Vec<Vec<String>> = Vec::new();
    let mut i: usize = 0;
    proof {
        assert(dv.skip(0) =~= dv);
        assert(rows.deep_view() =~= Seq::<Seq<Seq<char>>>::empty());
    }
    loop
        invariant
            i <= input.len(),
            dv == input.deep_view(),
            table_body_rows(dv) == rows.deep_view() + table_body_rows(dv.skip(i as int)),
            table_body_count(dv) == i + table_body_count(dv.skip(i as int)),
        ensures
            rows.deep_view() == table_body_rows(dv),
            i as int == table_body_count(dv),
        decreases input.len() - i,
    {
        if !(i < input.len()) {
            proof {
                assert(table_body_rows(dv.skip(i as int)) =~= Seq::<Seq<Seq<char>>>::empty());
                assert(rows.deep_view() + Seq::<Seq<Seq<char>>>::empty() =~= rows.deep_view());
            }
            break;
        }
        let is_row = is_table_block_start(&input[i]);
        proof {
            assert(input[i as int]@ == dv[i as int]);
            assert(dv.skip(i as int).first() == dv[i as int]);
        }
        if !is_row {
            proof {
                assert(table_body_rows(dv.skip(i as int)) =~= Seq::<Seq<Seq<char>>>::empty());
                assert(rows.deep_view() + Seq::<Seq<Seq<char>>>::empty() =~= rows.deep_view());
            }
            break;
        }
        let s = input[i].as_str();
        let inner = s.substring_char(1, s.unicode_len()).to_owned();
        proof {
            assert(inner@ =~= dv[i as int].skip(1));
        }
        let cells = get_table_column_name(&inner);
        let ghost old_rows = rows.deep_view();
        rows.push(cells);
        proof {
            assert(rows.deep_view() =~= old_rows.push(cells.deep_view()));
            assert(dv.skip(i as int).drop_first() =~= dv.skip(i as int + 1));
            assert(old_rows + (seq![table_cells(dv[i as int].skip(1))] + table_body_rows(
                dv.skip(i as int + 1),
            )) =~= rows.deep_view() + table_body_rows(dv.skip(i as int + 1)));
        }
        i = i + 1;
    }
    (rows, i)
}

/// Builds a table from its run of lines: the header row, the
/// alignment row, then the body rows; the second result is how many
/// lines the table consumed.
pub fn parse_table(input: Vec<String>) -> (r: (Table, usize))
    requires
        input.deep_view().len() >= 2,
        is_table_spec(input.deep_view()[0]),
        input.deep_view()[1].len() >= 1,
        row_aligns(input.deep_view()[1]).len() >= head_cells(input.deep_view()[0]).len(),
    ensures
        r.0@ == (TableV {
            head: head_info(head_cells(input.deep_view()[0]), row_aligns(input.deep_view()[1])),
            body: table_body_rows(input.deep_view().skip(2)),
        }),
        r.1 as int == 2 + table_body_count(input.deep_view().skip(2)),
{
    let ghost dv = input.deep_view();
    proof {
        lemma_table_body_count(dv.skip(2));
    }
    let head_lines = {
        let mut h: Vec<String> = Vec::new();
        h.push(input[0].clone());
        h.push(input[1].clone());
        h
    };
    proof {
        assert(head_lines.deep_view() =~= seq![dv[0], dv[1]]);
    }
    let table_head = get_table_head_info(head_lines);
    let tail = subvec_strings(&input, 2);
    let (rows, skip) = parse_table_body(tail);
    let table = Table::new(table_head, rows);
    (table, skip + 2)
}

} // verus!
