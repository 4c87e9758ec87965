//! Structured inspection of captured screen text: separator landmarks
//! and ANSI color extraction.
//!
//! Separator detection works on escape-stripped text and looks for the
//! box-drawing characters used to render split-pane borders. A candidate
//! column or row is accepted only with strictly more than 5 occurrences,
//! which rejects incidental matches.

use vstd::prelude::*;
use crate::text::find_char;
use crate::text::first_idx;
use crate::text::lemma_first_idx;
use crate::text::spec_parse_uint;
use crate::text::parse_u32_bounded;
use crate::text::spec_split_lines;
use crate::text::split_lines;
use crate::text::str_eq;
use crate::text::views_of;

verus! {

/// Vertical box-drawing character used as a separator in side-by-side
/// split layouts.
pub open spec fn vertical_separator() -> char {
    '\u{2502}'
}

/// Horizontal box-drawing character used as a separator in top/bottom
/// split layouts.
pub open spec fn horizontal_separator() -> char {
    '\u{2500}'
}

/// How many lines have `ch` at character position `col`.
pub open spec fn col_count(ls: Seq<Seq<char>>, col: int, ch: char) -> nat
    decreases ls.len(),
{
    if ls.len() == 0 {
        0
    } else {
        col_count(ls.drop_last(), col, ch) + (if 0 <= col < ls.last().len() && ls.last()[col]
            == ch {
            1nat
        } else {
            0nat
        })
    }
}

/// How many characters of `l` equal `ch`.
pub open spec fn char_count(l: Seq<char>, ch: char) -> nat
    decreases l.len(),
{
    if l.len() == 0 {
        0
    } else {
        char_count(l.drop_last(), ch) + (if l.last() == ch {
            1nat
        } else {
            0nat
        })
    }
}

proof fn lemma_col_count_le(ls: Seq<Seq<char>>, col: int, ch: char)
    ensures
        col_count(ls, col, ch) <= ls.len(),
    decreases ls.len(),
{
    if ls.len() > 0 {
        lemma_col_count_le(ls.drop_last(), col, ch);
    }
}

/// Finds the column where vertical separators stand: the lowest column
/// index whose count of the vertical box-drawing character over all
/// lines is maximal, accepted only where that count exceeds 5.
pub fn find_vertical_separator_col(clean: &str) -> (r: Option<usize>)
    ensures
        (match r {
            Some(c) => col_count(spec_split_lines(clean@), c as int, vertical_separator()) > 5
                && (forall|c2: int|
                col_count(spec_split_lines(clean@), c2, vertical_separator()) <= col_count(
                    spec_split_lines(clean@),
                    c as int,
                    vertical_separator(),
                )) && (forall|c2: int|
                0 <= c2 < c ==> col_count(spec_split_lines(clean@), c2, vertical_separator())
                    < col_count(spec_split_lines(clean@), c as int, vertical_separator())),
            None => forall|c2: int|
                col_count(spec_split_lines(clean@), c2, vertical_separator()) <= 5,
        }),
{
    let lines = split_lines(clean);
    let ghost ls = spec_split_lines(clean@);
    let mut counts: Vec<usize> = Vec::new();
    let mut li: usize = 0;
    proof {
        assert(ls.subrange(0, 0) =~= Seq::<Seq<char>>::empty());
    }
    let nlines = lines.len();
    while li < nlines
        invariant
            0 <= li <= lines@.len(),
            nlines == lines@.len(),
            views_of(lines@) == ls,
            ls.len() <= usize::MAX,
            forall|c: int|
                0 <= c < counts@.len() ==> counts@[c] == col_count(
                    ls.subrange(0, li as int),
                    c,
                    vertical_separator(),
                ),
            forall|c: int|
                c >= counts@.len() ==> col_count(ls.subrange(0, li as int), c, vertical_separator())
                    == 0,
        decreases lines@.len() - li,
    {
        let ghost pre = ls.subrange(0, li as int);
        let ghost post = ls.subrange(0, li as int + 1);
        proof {
            assert(post.drop_last() =~= pre);
            assert(post.last() == ls[li as int]);
            assert(views_of(lines@)[li as int] == lines@[li as int]@);
        }
        let line = &lines[li];
        let w = line.as_str().unicode_len();
        while counts.len() < w
            invariant
                forall|c: int|
                    0 <= c < counts@.len() ==> counts@[c] == col_count(
                        pre,
                        c,
                        vertical_separator(),
                    ),
                forall|c: int|
                    c >= counts@.len() ==> col_count(pre, c, vertical_separator()) == 0,
            decreases w - counts.len(),
        {
            let ghost cl = counts@.len() as int;
            counts.push(0);
            proof {
                assert(counts@[cl] == 0);
                assert(col_count(pre, cl, vertical_separator()) == 0);
            }
        }
        let mut cc: usize = 0;
        while cc < w
            invariant
                0 <= cc <= w,
                w == ls[li as int].len(),
                0 <= li < ls.len(),
                views_of(lines@) == ls,
                lines@[li as int]@ == ls[li as int],
                w <= counts@.len(),
                pre == ls.subrange(0, li as int),
                post == ls.subrange(0, li as int + 1),
                post.drop_last() == pre,
                post.last() == ls[li as int],
                forall|c: int|
                    0 <= c < cc ==> counts@[c] == col_count(post, c, vertical_separator()),
                forall|c: int|
                    cc <= c < counts@.len() ==> counts@[c] == col_count(
                        pre,
                        c,
                        vertical_separator(),
                    ),
                forall|c: int|
                    c >= counts@.len() ==> col_count(pre, c, vertical_separator()) == 0,
                ls.len() <= usize::MAX,
            decreases w - cc,
        {
            if lines[li].as_str().get_char(cc) == '\u{2502}' {
                proof {
                    lemma_col_count_le(pre, cc as int, vertical_separator());
                    assert(col_count(pre, cc as int, vertical_separator()) <= li);
                }
                let old_c = counts[cc];
                counts.set(cc, old_c + 1);
            }
            proof {
                assert(col_count(post, cc as int, vertical_separator()) == col_count(
                    pre,
                    cc as int,
                    vertical_separator(),
                ) + (if ls[li as int][cc as int] == vertical_separator() {
                    1nat
                } else {
                    0nat
                }));
            }
            cc += 1;
        }
        proof {
            assert forall|c: int|
                0 <= c < counts@.len() implies counts@[c] == col_count(
                post,
                c,
                vertical_separator(),
            ) by {
                if c >= w {
                    assert(col_count(post, c, vertical_separator()) == col_count(
                        pre,
                        c,
                        vertical_separator(),
                    ));
                }
            }
            assert forall|c: int|
                c >= counts@.len() implies col_count(post, c, vertical_separator()) == 0 by {
                assert(c >= w);
                assert(col_count(post, c, vertical_separator()) == col_count(
                    pre,
                    c,
                    vertical_separator(),
                ));
            }
        }
        li += 1;
    }
    proof {
        assert(ls.subrange(0, lines@.len() as int) =~= ls);
    }
    // lowest column with the maximal count
    let mut best_col: usize = 0;
    let mut best_count: usize = 0;
    let mut c: usize = 0;
    while c < counts.len()
        invariant
            0 <= c <= counts@.len(),
            forall|c2: int|
                0 <= c2 < counts@.len() ==> counts@[c2] == col_count(ls, c2, vertical_separator()),
            forall|c2: int| c2 >= counts@.len() ==> col_count(ls, c2, vertical_separator()) == 0,
            (c == 0 && best_col == 0 && best_count == 0) || (best_col < c && best_count
                == col_count(ls, best_col as int, vertical_separator())),
            forall|c2: int| 0 <= c2 < c ==> col_count(ls, c2, vertical_separator()) <= best_count,
            forall|c2: int|
                0 <= c2 < best_col ==> col_count(ls, c2, vertical_separator()) < best_count,
        decreases counts@.len() - c,
    {
        if counts[c] > best_count {
            best_col = c;
            best_count = counts[c];
        }
        c += 1;
    }
    proof {
        assert forall|c2: int| col_count(ls, c2, vertical_separator()) <= best_count by {
            if c2 < 0 {
                lemma_col_count_neg(ls, c2, vertical_separator());
            }
        }
    }
    if best_count > 5 {
        Some(best_col)
    } else {
        None
    }
}

proof fn lemma_col_count_neg(ls: Seq<Seq<char>>, col: int, ch: char)
    requires
        col < 0,
    ensures
        col_count(ls, col, ch) == 0,
    decreases ls.len(),
{
    if ls.len() > 0 {
        lemma_col_count_neg(ls.drop_last(), col, ch);
    }
}

/// Finds the row where horizontal separators stand: the highest row
/// index whose count of the horizontal box-drawing character is maximal,
/// accepted only where that count exceeds 5.
pub fn find_horizontal_separator_row(clean: &str) -> (r: Option<usize>)
    ensures
        (match r {
            Some(row) => row < spec_split_lines(clean@).len() && char_count(
                spec_split_lines(clean@)[row as int],
                horizontal_separator(),
            ) > 5 && (forall|r2: int|
                0 <= r2 < spec_split_lines(clean@).len() ==> char_count(
                    spec_split_lines(clean@)[r2],
                    horizontal_separator(),
                ) <= char_count(
                    spec_split_lines(clean@)[row as int],
                    horizontal_separator(),
                )) && (forall|r2: int|
                row < r2 < spec_split_lines(clean@).len() ==> char_count(
                    spec_split_lines(clean@)[r2],
                    horizontal_separator(),
                ) < char_count(spec_split_lines(clean@)[row as int], horizontal_separator())),
            None => forall|r2: int|
                0 <= r2 < spec_split_lines(clean@).len() ==> char_count(
                    spec_split_lines(clean@)[r2],
                    horizontal_separator(),
                ) <= 5,
        }),
{
    let lines = split_lines(clean);
    let ghost ls = spec_split_lines(clean@);
    let mut best_row: usize = 0;
    let mut best_count: usize = 0;
    let mut found = false;
    let mut li: usize = 0;
    while li < lines.len()
        invariant
            0 <= li <= lines@.len(),
            views_of(lines@) == ls,
            found ==> best_row < li && best_count == char_count(
                ls[best_row as int],
                horizontal_separator(),
            ),
            !found ==> best_count == 0,
            found ==> best_count > 0,
            forall|r2: int|
                0 <= r2 < li ==> char_count(ls[r2], horizontal_separator()) <= best_count,
            found ==> forall|r2: int|
                best_row < r2 < li ==> char_count(ls[r2], horizontal_separator()) < best_count,
        decreases lines@.len() - li,
    {
        proof {
            assert(views_of(lines@)[li as int] == lines@[li as int]@);
        }
        let w = lines[li].as_str().unicode_len();
        let mut cnt: usize = 0;
        let mut j: usize = 0;
        proof {
            assert(ls[li as int].subrange(0, 0) =~= Seq::<char>::empty());
        }
        while j < w
            invariant
                0 <= j <= w,
                0 <= li < ls.len(),
                views_of(lines@) == ls,
                lines@[li as int]@ == ls[li as int],
                w == ls[li as int].len(),
                cnt <= j,
                cnt == char_count(ls[li as int].subrange(0, j as int), horizontal_separator()),
            decreases w - j,
        {
            let ghost seg = ls[li as int].subrange(0, j as int);
            let ghost seg2 = ls[li as int].subrange(0, j as int + 1);
            proof {
                assert(seg2.drop_last() =~= seg);
                assert(seg2.last() == ls[li as int][j as int]);
            }
            if lines[li].as_str().get_char(j) == '\u{2500}' {
                cnt += 1;
            }
            j += 1;
        }
        proof {
            assert(ls[li as int].subrange(0, w as int) =~= ls[li as int]);
        }
        if cnt >= best_count && cnt > 0 {
            best_row = li;
            best_count = cnt;
            found = true;
        }
        li += 1;
    }
    if found && best_count > 5 {
        Some(best_row)
    } else {
        None
    }
}

/// The rows (in order) whose character at `col` is the vertical
/// separator.
pub open spec fn sep_rows(ls: Seq<Seq<char>>, col: int) -> Seq<int>
    decreases ls.len(),
{
    if ls.len() == 0 {
        Seq::empty()
    } else {
        sep_rows(ls.drop_last(), col) + (if 0 <= col < ls.last().len() && ls.last()[col]
            == vertical_separator() {
            seq![ls.len() - 1]
        } else {
            Seq::<int>::empty()
        })
    }
}

/// Finds all rows that hold a vertical separator at the given column.
pub fn find_separator_rows_at_col(clean: &str, col: usize) -> (r: Vec<usize>)
    ensures
        r@.map_values(|x: usize| x as int) == sep_rows(spec_split_lines(clean@), col as int),
{
    let lines = split_lines(clean);
    let ghost ls = spec_split_lines(clean@);
    let mut out: Vec<usize> = Vec::new();
    let mut li: usize = 0;
    proof {
        assert(ls.subrange(0, 0) =~= Seq::<Seq<char>>::empty());
        assert(out@.map_values(|x: usize| x as int) =~= sep_rows(ls.subrange(0, 0), col as int));
    }
    while li < lines.len()
        invariant
            0 <= li <= lines@.len(),
            views_of(lines@) == ls,
            out@.map_values(|x: usize| x as int) == sep_rows(ls.subrange(0, li as int), col as int),
        decreases lines@.len() - li,
    {
        let ghost pre = ls.subrange(0, li as int);
        let ghost post = ls.subrange(0, li as int + 1);
        proof {
            assert(post.drop_last() =~= pre);
            assert(post.last() == ls[li as int]);
            assert(views_of(lines@)[li as int] == lines@[li as int]@);
        }
        let w = lines[li].as_str().unicode_len();
        if col < w && lines[li].as_str().get_char(col) == '\u{2502}' {
            out.push(li);
        }
        proof {
            assert(out@.map_values(|x: usize| x as int) =~= sep_rows(post, col as int));
        }
        li += 1;
    }
    proof {
        assert(ls.subrange(0, lines@.len() as int) =~= ls);
    }
    out
}

/// The columns (in order) of `l` holding the horizontal separator.
pub open spec fn sep_cols(l: Seq<char>) -> Seq<int>
    decreases l.len(),
{
    if l.len() == 0 {
        Seq::empty()
    } else {
        sep_cols(l.drop_last()) + (if l.last() == horizontal_separator() {
            seq![l.len() - 1]
        } else {
            Seq::<int>::empty()
        })
    }
}

/// Finds all columns that hold a horizontal separator at the given row;
/// empty where the row does not exist.
pub fn find_separator_cols_at_row(clean: &str, row: usize) -> (r: Vec<usize>)
    ensures
        r@.map_values(|x: usize| x as int) == (if (row as int) < spec_split_lines(clean@).len() {
            sep_cols(spec_split_lines(clean@)[row as int])
        } else {
            Seq::<int>::empty()
        }),
{
    let lines = split_lines(clean);
    let ghost ls = spec_split_lines(clean@);
    let mut out: Vec<usize> = Vec::new();
    if row >= lines.len() {
        proof {
            assert(out@.map_values(|x: usize| x as int) =~= Seq::<int>::empty());
        }
        return out;
    }
    proof {
        assert(views_of(lines@)[row as int] == lines@[row as int]@);
    }
    let ghost l = ls[row as int];
    let w = lines[row].as_str().unicode_len();
    let mut j: usize = 0;
    proof {
        assert(l.subrange(0, 0) =~= Seq::<char>::empty());
        assert(out@.map_values(|x: usize| x as int) =~= sep_cols(l.subrange(0, 0)));
    }
    while j < w
        invariant
            0 <= j <= w,
            0 <= row < ls.len(),
            views_of(lines@) == ls,
            lines@[row as int]@ == l,
            l == ls[row as int],
            w == l.len(),
            out@.map_values(|x: usize| x as int) == sep_cols(l.subrange(0, j as int)),
        decreases w - j,
    {
        let ghost seg = l.subrange(0, j as int);
        let ghost seg2 = l.subrange(0, j as int + 1);
        proof {
            assert(seg2.drop_last() =~= seg);
            assert(seg2.last() == l[j as int]);
        }
        if lines[row].as_str().get_char(j) == '\u{2500}' {
            out.push(j);
        }
        proof {
            assert(out@.map_values(|x: usize| x as int) =~= sep_cols(seg2));
        }
        j += 1;
    }
    proof {
        assert(l.subrange(0, w as int) =~= l);
    }
    out
}

/// Whether `p` occurs in `s` as a contiguous run.
pub open spec fn has_substr(s: Seq<char>, p: Seq<char>) -> bool {
    exists|i: int| 0 <= i <= s.len() - p.len() && #[trigger] s.subrange(i, i + p.len()) == p
}

fn match_at(s: &str, p: &str, i: usize) -> (r: bool)
    requires
        i + p@.len() <= s@.len(),
    ensures
        r == (s@.subrange(i as int, i + p@.len()) == p@),
{
    let n = s.unicode_len();
    let m = p.unicode_len();
    let mut j: usize = 0;
    while j < m
        invariant
            0 <= j <= m,
            m == p@.len(),
            n == s@.len(),
            i + m <= n,
            forall|k: int| 0 <= k < j ==> s@[i + k] == p@[k],
        decreases m - j,
    {
        if s.get_char(i + j) != p.get_char(j) {
            proof {
                assert(s@.subrange(i as int, i + p@.len())[j as int] != p@[j as int]);
            }
            return false;
        }
        j += 1;
    }
    proof {
        assert(s@.subrange(i as int, i + p@.len()) =~= p@);
    }
    true
}

/// Whether `p` occurs in `s`.
pub fn contains_sub(s: &str, p: &str) -> (r: bool)
    ensures
        r == has_substr(s@, p@),
{
    let n = s.unicode_len();
    let m = p.unicode_len();
    if m > n {
        return false;
    }
    if m == 0 {
        proof {
            assert(s@.subrange(0, 0 + p@.len() as int) =~= p@);
        }
        return true;
    }
    let mut i: usize = 0;
    while i <= n - m
        invariant
            0 <= i <= n - m + 1,
            0 < m <= n,
            n == s@.len(),
            m == p@.len(),
            forall|i2: int| 0 <= i2 < i ==> #[trigger] s@.subrange(i2, i2 + p@.len()) != p@,
        decreases n - i,
    {
        if match_at(s, p, i) {
            return true;
        }
        i += 1;
    }
    false
}

/// The text with every leading `ESC [` pair removed.
pub open spec fn strip_esc_pre(s: Seq<char>) -> Seq<char>
    decreases s.len(),
{
    if crate::text::spec_starts_with(s, "\x1b["@) && "\x1b["@.len() > 0 {
        strip_esc_pre(s.subrange("\x1b["@.len() as int, s.len() as int))
    } else {
        s
    }
}

fn strip_esc_pre_exec(s: &str) -> (r: &str)
    ensures
        r@ == strip_esc_pre(s@),
{
    proof {
        reveal_strlit("\x1b[");
    }
    let mut rest: &str = s;
    loop
        invariant
            strip_esc_pre(s@) == strip_esc_pre(rest@),
        ensures
            strip_esc_pre(s@) == strip_esc_pre(rest@),
            !crate::text::spec_starts_with(rest@, "\x1b["@),
        decreases rest@.len(),
    {
        proof {
            reveal_strlit("\x1b[");
        }
        if !crate::text::starts_with(rest, "\x1b[") {
            break;
        }
        let n = rest.unicode_len();
        rest = rest.substring_char(2, n);
    }
    rest
}

/// The text with every trailing `m` removed.
pub open spec fn strip_m_end(s: Seq<char>) -> Seq<char>
    decreases s.len(),
{
    if s.len() > 0 && s.last() == 'm' {
        strip_m_end(s.drop_last())
    } else {
        s
    }
}

fn strip_m_end_exec(s: &str) -> (r: &str)
    ensures
        r@ == strip_m_end(s@),
{
    let n = s.unicode_len();
    let mut e: usize = n;
    proof {
        assert(s@.subrange(0, n as int) =~= s@);
    }
    while e > 0 && s.get_char(e - 1) == 'm'
        invariant
            0 <= e <= n,
            n == s@.len(),
            strip_m_end(s@) == strip_m_end(s@.subrange(0, e as int)),
        decreases e,
    {
        proof {
            assert(s@.subrange(0, e as int).last() == s@[e - 1]);
            assert(s@.subrange(0, e as int).drop_last() =~= s@.subrange(0, e as int - 1));
        }
        e -= 1;
    }
    let r = s.substring_char(0, e);
    proof {
        if e > 0 {
            assert(s@.subrange(0, e as int).last() == s@[e - 1]);
        }
        assert(strip_m_end(s@.subrange(0, e as int)) == s@.subrange(0, e as int));
    }
    r
}

/// Whether `c` separates SGR parameters: both the standard `;` and the
/// colon form are recognized.
pub open spec fn is_param_sep(c: char) -> bool {
    c == ';' || c == ':'
}

/// Index of the first parameter separator, or `s.len()`.
pub open spec fn first_sep(s: Seq<char>) -> int
    decreases s.len(),
{
    if s.len() == 0 {
        0
    } else if is_param_sep(s[0]) {
        0
    } else {
        1 + first_sep(s.drop_first())
    }
}

proof fn lemma_first_sep(s: Seq<char>)
    ensures
        0 <= first_sep(s) <= s.len(),
        forall|k: int| 0 <= k < first_sep(s) ==> !is_param_sep(s[k]),
        first_sep(s) < s.len() ==> is_param_sep(s[first_sep(s)]),
    decreases s.len(),
{
    if s.len() > 0 && !is_param_sep(s[0]) {
        lemma_first_sep(s.drop_first());
        assert forall|k: int| 0 <= k < first_sep(s) implies !is_param_sep(s[k]) by {
            if k > 0 {
                assert(s.drop_first()[k - 1] == s[k]);
            }
        }
    }
}

proof fn lemma_first_sep_unique(s: Seq<char>, m: int)
    requires
        0 <= m <= s.len(),
        forall|k: int| 0 <= k < m ==> !is_param_sep(s[k]),
        m < s.len() ==> is_param_sep(s[m]),
    ensures
        first_sep(s) == m,
{
    lemma_first_sep(s);
    if first_sep(s) < m {
        assert(is_param_sep(s[first_sep(s)]));
    }
    if m < first_sep(s) {
        assert(!is_param_sep(s[m]));
    }
}

/// The parameter fields of an SGR body, split at every `;` or `:`.
pub open spec fn split_params(s: Seq<char>) -> Seq<Seq<char>>
    decreases s.len(),
    via split_params_decreases
{
    let i = first_sep(s);
    if i == s.len() {
        seq![s]
    } else {
        seq![s.subrange(0, i)] + split_params(s.subrange(i + 1, s.len() as int))
    }
}

#[via_fn]
proof fn split_params_decreases(s: Seq<char>) {
    lemma_first_sep(s);
}

fn split_params_exec(s: &str) -> (r: Vec<String>)
    ensures
        views_of(r@) == split_params(s@),
{
    let n = s.unicode_len();
    let mut out: Vec<String> = Vec::new();
    let mut i: usize = 0;
    proof {
        assert(s@.subrange(0, n as int) =~= s@);
        assert(views_of(out@) + split_params(s@.subrange(0, n as int)) =~= split_params(s@));
    }
    loop
        invariant_except_break
            0 <= i <= n,
            n == s@.len(),
            views_of(out@) + split_params(s@.subrange(i as int, n as int)) == split_params(s@),
        ensures
            views_of(out@) == split_params(s@),
        decreases n - i,
    {
        let ghost rest = s@.subrange(i as int, n as int);
        let mut j: usize = i;
        while j < n && !(s.get_char(j) == ';' || s.get_char(j) == ':')
            invariant
                i <= j <= n,
                n == s@.len(),
                forall|k: int| i <= k < j ==> !is_param_sep(s@[k]),
            decreases n - j,
        {
            j += 1;
        }
        proof {
            assert forall|k: int| 0 <= k < j - i implies !is_param_sep(rest[k]) by {
                assert(rest[k] == s@[i + k]);
            }
            lemma_first_sep_unique(rest, j - i);
        }
        let seg = s.substring_char(i, j);
        let ghost prev = out@;
        out.push(String::from_str(seg));
        proof {
            assert(seg@ =~= rest.subrange(0, (j - i) as int));
            assert(views_of(out@) =~~= views_of(prev).push(seg@));
        }
        if j == n {
            proof {
                assert(rest.subrange(0, (j - i) as int) =~= rest);
                assert(split_params(rest) =~= seq![rest]);
                assert(views_of(out@) =~~= views_of(prev) + split_params(rest));
                assert(views_of(out@) =~~= split_params(s@));
            }
            break;
        }
        proof {
            assert(rest.subrange(j - i + 1, rest.len() as int) =~= s@.subrange(
                j as int + 1,
                n as int,
            ));
            assert(split_params(rest) =~= seq![seg@] + split_params(
                s@.subrange(j as int + 1, n as int),
            ));
            assert(views_of(out@) + split_params(s@.subrange(j as int + 1, n as int))
                =~~= views_of(prev) + split_params(rest));
        }
        i = j + 1;
    }
    out
}

/// Index of the first field equal to `w`, or `parts.len()`.
pub open spec fn first_match(parts: Seq<Seq<char>>, w: Seq<char>) -> int
    decreases parts.len(),
{
    if parts.len() == 0 {
        0
    } else if parts[0] == w {
        0
    } else {
        1 + first_match(parts.drop_first(), w)
    }
}

proof fn lemma_first_match(parts: Seq<Seq<char>>, w: Seq<char>)
    ensures
        0 <= first_match(parts, w) <= parts.len(),
        forall|k: int| 0 <= k < first_match(parts, w) ==> parts[k] != w,
        first_match(parts, w) < parts.len() ==> parts[first_match(parts, w)] == w,
    decreases parts.len(),
{
    if parts.len() > 0 && parts[0] != w {
        lemma_first_match(parts.drop_first(), w);
        assert forall|k: int| 0 <= k < first_match(parts, w) implies parts[k] != w by {
            if k > 0 {
                assert(parts.drop_first()[k - 1] == parts[k]);
            }
        }
    }
}

proof fn lemma_first_match_unique(parts: Seq<Seq<char>>, w: Seq<char>, m: int)
    requires
        0 <= m <= parts.len(),
        forall|k: int| 0 <= k < m ==> parts[k] != w,
        m < parts.len() ==> parts[m] == w,
    ensures
        first_match(parts, w) == m,
{
    lemma_first_match(parts, w);
    if first_match(parts, w) < m {
        assert(parts[first_match(parts, w)] == w);
    }
    if m < first_match(parts, w) {
        assert(parts[m] != w);
    }
}

fn find_part(parts: &Vec<String>, w: &str) -> (r: usize)
    ensures
        r as int == first_match(views_of(parts@), w@),
{
    let mut i: usize = 0;
    while i < parts.len()
        invariant
            0 <= i <= parts@.len(),
            forall|k: int| 0 <= k < i ==> views_of(parts@)[k] != w@,
        decreases parts@.len() - i,
    {
        proof {
            assert(views_of(parts@)[i as int] == parts@[i as int]@);
        }
        if str_eq(parts[i].as_str(), w) {
            proof {
                lemma_first_match_unique(views_of(parts@), w@, i as int);
            }
            return i;
        }
        i += 1;
    }
    proof {
        lemma_first_match_unique(views_of(parts@), w@, parts@.len() as int);
    }
    parts.len()
}

/// An extracted ANSI color.
#[derive(Debug, Clone, PartialEq, Eq)]
pub struct AnsiColor {
    /// The raw escape sequence as captured.
    pub raw: String,
    /// Whether the sequence sets a foreground color (parameter 38); a
    /// background-only sequence (48) has this false.
    pub is_foreground: bool,
    /// The RGB components where the sequence uses the true-color form.
    pub rgb: Option<(u8, u8, u8)>,
    /// The palette index where the sequence uses the 256-color form.
    pub palette_index: Option<u8>,
}

/// The mathematical shape of an extracted ANSI color.
#[verifier::ext_equal]
pub struct AnsiColorModel {
    pub raw: Seq<char>,
    pub is_foreground: bool,
    pub rgb: Option<(u8, u8, u8)>,
    pub palette_index: Option<u8>,
}

impl View for AnsiColor {
    type V = AnsiColorModel;

    open spec fn view(&self) -> AnsiColorModel {
        AnsiColorModel {
            raw: self.raw@,
            is_foreground: self.is_foreground,
            rgb: self.rgb,
            palette_index: self.palette_index,
        }
    }
}

/// The views of a sequence of extracted colors.
pub open spec fn color_views(v: Seq<AnsiColor>) -> Seq<AnsiColorModel> {
    v.map_values(|c: AnsiColor| c@)
}

/// The RGB triple read from the fields after the first `2` marker, where
/// all three parse as 8-bit numbers.
pub open spec fn spec_rgb_from(parts: Seq<Seq<char>>) -> Option<(u8, u8, u8)> {
    let p = first_match(parts, "2"@);
    if p < parts.len() && parts.len() > p + 3 {
        match spec_parse_uint(parts[p + 1], 255) {
            Some(r) => match spec_parse_uint(parts[p + 2], 255) {
                Some(g) => match spec_parse_uint(parts[p + 3], 255) {
                    Some(b) => Some((r as u8, g as u8, b as u8)),
                    None => None,
                },
                None => None,
            },
            None => None,
        }
    } else {
        None
    }
}

/// The palette index read from the field after the first `5` marker.
pub open spec fn spec_pal_from(parts: Seq<Seq<char>>) -> Option<u8> {
    let p = first_match(parts, "5"@);
    if p < parts.len() && parts.len() > p + 1 {
        match spec_parse_uint(parts[p + 1], 255) {
            Some(idx) => Some(idx as u8),
            None => None,
        }
    } else {
        None
    }
}

/// Whether the sequence takes the true-color branch: the `2` marker
/// framed by separators, in either style.
pub open spec fn rgb_branch(s: Seq<char>) -> bool {
    has_substr(s, ";2;"@) || has_substr(s, ":2:"@)
}

/// Whether the sequence takes the palette branch: the `5` marker framed
/// by separators, in either style.
pub open spec fn pal_branch(s: Seq<char>) -> bool {
    has_substr(s, ";5;"@) || has_substr(s, ":5:"@)
}

/// What parsing an SGR color sequence yields: `None` where neither a
/// foreground (38) nor a background (48) parameter occurs; otherwise a
/// record whose RGB or palette fields are filled from the true-color or
/// 256-color form, where present and well formed. At most one of the
/// two is set.
pub open spec fn spec_parse_seq(s: Seq<char>) -> Option<AnsiColorModel> {
    let is_fg = has_substr(s, "38;"@) || has_substr(s, "38:"@);
    let is_bg = has_substr(s, "48;"@) || has_substr(s, "48:"@);
    if !is_fg && !is_bg {
        None
    } else {
        let parts = split_params(strip_m_end(strip_esc_pre(s)));
        Some(
            AnsiColorModel {
                raw: s,
                is_foreground: is_fg,
                rgb: if rgb_branch(s) {
                    spec_rgb_from(parts)
                } else {
                    None
                },
                palette_index: if !rgb_branch(s) && pal_branch(s) {
                    spec_pal_from(parts)
                } else {
                    None
                },
            },
        )
    }
}

impl AnsiColor {
    /// Parses an SGR color sequence, accepting both the standard
    /// semicolon-separated and the colon-separated parameter styles.
    pub fn parse_seq(sq: &str) -> (r: Option<AnsiColor>)
        ensures
            (match r {
                Some(c) => spec_parse_seq(sq@) == Some(c@),
                None => spec_parse_seq(sq@) is None,
            }),
    {
        let is_fg = contains_sub(sq, "38;") || contains_sub(sq, "38:");
        let is_bg = contains_sub(sq, "48;") || contains_sub(sq, "48:");
        if !is_fg && !is_bg {
            return None;
        }
        let parts = split_params_exec(strip_m_end_exec(strip_esc_pre_exec(sq)));
        let ghost pv = views_of(parts@);
        let in_rgb = contains_sub(sq, ";2;") || contains_sub(sq, ":2:");
        let mut rgb: Option<(u8, u8, u8)> = None;
        let mut palette_index: Option<u8> = None;
        if in_rgb {
            let p = find_part(&parts, "2");
            if p < parts.len() && parts.len() - p > 3 {
                proof {
                    assert(pv[p + 1] == parts@[p + 1]@);
                    assert(pv[p + 2] == parts@[p + 2]@);
                    assert(pv[p + 3] == parts@[p + 3]@);
                }
                match parse_u32_bounded(parts[p + 1].as_str(), 255) {
                    Some(rr) => match parse_u32_bounded(parts[p + 2].as_str(), 255) {
                        Some(gg) => match parse_u32_bounded(parts[p + 3].as_str(), 255) {
                            Some(bb) => {
                                rgb = Some((rr as u8, gg as u8, bb as u8));
                            },
                            None => {},
                        },
                        None => {},
                    },
                    None => {},
                }
            }
            proof {
                assert(rgb == spec_rgb_from(pv));
            }
        } else if contains_sub(sq, ";5;") || contains_sub(sq, ":5:") {
            let p = find_part(&parts, "5");
            if p < parts.len() && parts.len() - p > 1 {
                proof {
                    assert(pv[p + 1] == parts@[p + 1]@);
                }
                match parse_u32_bounded(parts[p + 1].as_str(), 255) {
                    Some(idx) => {
                        palette_index = Some(idx as u8);
                    },
                    None => {},
                }
            }
            proof {
                assert(palette_index == spec_pal_from(pv));
            }
        }
        Some(AnsiColor { raw: String::from_str(sq), is_foreground: is_fg, rgb, palette_index })
    }
}


/// Whether an escape sequence carries one of the recognized color
/// parameter introducers, in either separator style.
pub open spec fn is_color_seq(sq: Seq<char>) -> bool {
    has_substr(sq, "38;2;"@) || has_substr(sq, "38;5;"@) || has_substr(sq, "38:2:"@) || has_substr(
        sq,
        "38:5:"@,
    ) || has_substr(sq, "48;2;"@) || has_substr(sq, "48;5;"@) || has_substr(sq, "48:2:"@)
        || has_substr(sq, "48:5:"@)
}

fn is_color_seq_exec(sq: &str) -> (r: bool)
    ensures
        r == is_color_seq(sq@),
{
    contains_sub(sq, "38;2;") || contains_sub(sq, "38;5;") || contains_sub(sq, "38:2:")
        || contains_sub(sq, "38:5:") || contains_sub(sq, "48;2;") || contains_sub(sq, "48;5;")
        || contains_sub(sq, "48:2:") || contains_sub(sq, "48:5:")
}

fn vec_contains_str(v: &Vec<String>, s: &str) -> (r: bool)
    ensures
        r == views_of(v@).contains(s@),
{
    let mut i: usize = 0;
    while i < v.len()
        invariant
            0 <= i <= v@.len(),
            forall|k: int| 0 <= k < i ==> views_of(v@)[k] != s@,
        decreases v@.len() - i,
    {
        proof {
            assert(views_of(v@)[i as int] == v@[i as int]@);
        }
        if str_eq(v[i].as_str(), s) {
            proof {
                assert(views_of(v@)[i as int] == s@);
            }
            return true;
        }
        i += 1;
    }
    proof {
        if views_of(v@).contains(s@) {
            let k = choose|k: int| 0 <= k < views_of(v@).len() && views_of(v@)[k] == s@;
            assert(views_of(v@)[k] != s@);
        }
    }
    false
}

/// The scan of a raw line for color escape sequences, from position `i`
/// with the distinct sequences found so far: each `ESC [` opening runs
/// to the next `m`; a sequence carrying a color introducer joins the
/// result once, in encounter order.
pub open spec fn spec_scan_colors(l: Seq<char>, i: int, acc: Seq<Seq<char>>) -> Seq<Seq<char>>
    decreases l.len() - i,
    via spec_scan_colors_decreases
{
    if i < 0 || i >= l.len() {
        acc
    } else if l[i] == '\x1b' && i + 1 < l.len() && l[i + 1] == '[' {
        let p = i + first_idx(l.subrange(i, l.len() as int), 'm');
        if p >= l.len() {
            acc
        } else {
            let sq = l.subrange(i, p + 1);
            spec_scan_colors(
                l,
                p + 1,
                if is_color_seq(sq) && !acc.contains(sq) {
                    acc.push(sq)
                } else {
                    acc
                },
            )
        }
    } else {
        spec_scan_colors(l, i + 1, acc)
    }
}

#[via_fn]
proof fn spec_scan_colors_decreases(l: Seq<char>, i: int, acc: Seq<Seq<char>>) {
    if 0 <= i < l.len() {
        lemma_first_idx(l.subrange(i, l.len() as int), 'm');
    }
}

/// The distinct color escape sequences on one row of a raw capture, in
/// encounter order; empty where the row does not exist.
pub open spec fn spec_row_colors(text: Seq<char>, row: int) -> Seq<Seq<char>> {
    let ls = spec_split_lines(text);
    if 0 <= row < ls.len() {
        spec_scan_colors(ls[row], 0, Seq::empty())
    } else {
        Seq::empty()
    }
}

/// Extracts the distinct ANSI color escape sequences found on a row of
/// the raw output, in encounter order.
pub fn extract_row_colors(raw: &str, row: usize) -> (r: Vec<String>)
    ensures
        views_of(r@) == spec_row_colors(raw@, row as int),
{
    let lines = split_lines(raw);
    let mut colors: Vec<String> = Vec::new();
    if row >= lines.len() {
        proof {
            assert(views_of(colors@) =~= spec_row_colors(raw@, row as int));
        }
        return colors;
    }
    proof {
        assert(views_of(lines@)[row as int] == lines@[row as int]@);
    }
    let line = lines[row].as_str();
    let ghost l = line@;
    let n = line.unicode_len();
    let mut i: usize = 0;
    proof {
        assert(views_of(colors@) =~= Seq::<Seq<char>>::empty());
    }
    loop
        invariant_except_break
            0 <= i <= n,
            n == l.len(),
            line@ == l,
            spec_scan_colors(l, 0, Seq::empty()) == spec_scan_colors(
                l,
                i as int,
                views_of(colors@),
            ),
        ensures
            views_of(colors@) == spec_scan_colors(l, 0, Seq::empty()),
        decreases n - i,
    {
        if i >= n {
            break;
        }
        if line.get_char(i) == '\x1b' && i + 1 < n && line.get_char(i + 1) == '[' {
            let j = find_char(line, i, 'm');
            proof {
                assert(l.subrange(i as int, l.len() as int) =~= l.subrange(
                    i as int,
                    l.len() as int,
                ));
            }
            if j >= n {
                proof {
                    assert(i + first_idx(l.subrange(i as int, l.len() as int), 'm') >= l.len());
                }
                break;
            }
            let sq = line.substring_char(i, j + 1);
            proof {
                assert(sq@ =~= l.subrange(i as int, j as int + 1));
            }
            let ghost prev = views_of(colors@);
            if is_color_seq_exec(sq) && !vec_contains_str(&colors, sq) {
                colors.push(String::from_str(sq));
                proof {
                    assert(views_of(colors@) =~~= prev.push(sq@));
                }
            }
            proof {
                assert(spec_scan_colors(l, i as int, prev) == spec_scan_colors(
                    l,
                    j as int + 1,
                    views_of(colors@),
                ));
            }
            i = j + 1;
        } else {
            i += 1;
        }
    }
    proof {
        assert(views_of(colors@) =~= spec_row_colors(raw@, row as int));
    }
    colors
}

/// The colors of a row parsed into structured records, keeping only the
/// sequences the parser recognizes.
pub open spec fn spec_parsed_colors(sqs: Seq<Seq<char>>) -> Seq<AnsiColorModel>
    decreases sqs.len(),
{
    if sqs.len() == 0 {
        Seq::empty()
    } else {
        spec_parsed_colors(sqs.drop_last()) + (match spec_parse_seq(sqs.last()) {
            Some(c) => seq![c],
            None => Seq::<AnsiColorModel>::empty(),
        })
    }
}

/// Extracts a row's colors as parsed records with RGB or palette data.
pub fn extract_row_colors_parsed(raw: &str, row: usize) -> (r: Vec<AnsiColor>)
    ensures
        color_views(r@) == spec_parsed_colors(spec_row_colors(raw@, row as int)),
{
    let sqs = extract_row_colors(raw, row);
    let ghost sv = views_of(sqs@);
    let mut out: Vec<AnsiColor> = Vec::new();
    let mut i: usize = 0;
    proof {
        assert(sv.subrange(0, 0) =~= Seq::<Seq<char>>::empty());
        assert(color_views(out@) =~= spec_parsed_colors(sv.subrange(0, 0)));
    }
    while i < sqs.len()
        invariant
            0 <= i <= sqs@.len(),
            views_of(sqs@) == sv,
            color_views(out@) == spec_parsed_colors(sv.subrange(0, i as int)),
        decreases sqs@.len() - i,
    {
        let ghost pre = sv.subrange(0, i as int);
        let ghost post = sv.subrange(0, i as int + 1);
        proof {
            assert(post.drop_last() =~= pre);
            assert(post.last() == sv[i as int]);
            assert(views_of(sqs@)[i as int] == sqs@[i as int]@);
        }
        match AnsiColor::parse_seq(sqs[i].as_str()) {
            Some(c) => {
                out.push(c);
            },
            None => {},
        }
        proof {
            assert(color_views(out@) =~~= spec_parsed_colors(post));
        }
        i += 1;
    }
    proof {
        assert(sv.subrange(0, sqs@.len() as int) =~= sv);
    }
    out
}

/// Whether `p` is a suffix of `s`.
pub open spec fn spec_ends_with(s: Seq<char>, p: Seq<char>) -> bool {
    s.len() >= p.len() && s.subrange(s.len() - p.len(), s.len() as int) == p
}

fn chars_end_with(v: &Vec<char>, p: &str) -> (r: bool)
    ensures
        r == spec_ends_with(v@, p@),
{
    let n = v.len();
    let m = p.unicode_len();
    if m > n {
        return false;
    }
    let mut j: usize = 0;
    while j < m
        invariant
            0 <= j <= m,
            m <= n,
            n == v@.len(),
            m == p@.len(),
            forall|k: int| 0 <= k < j ==> v@[n - m + k] == p@[k],
        decreases m - j,
    {
        if v[n - m + j] != p.get_char(j) {
            proof {
                assert(v@.subrange(n - m, n as int)[j as int] != p@[j as int]);
            }
            return false;
        }
        j += 1;
    }
    proof {
        assert(v@.subrange(n - m, n as int) =~= p@);
    }
    true
}

/// The walk of a raw line that tracks the active foreground color: each
/// escape sequence may set (foreground) or reset (bare or `0`) it, each
/// other character joins the visible text, and the walk stops with the
/// active color at the moment the visible text first ends with the
/// needle.
pub open spec fn spec_fg_scan(
    l: Seq<char>,
    needle: Seq<char>,
    i: int,
    cur: Option<(u8, u8, u8)>,
    vis: Seq<char>,
) -> Option<(u8, u8, u8)>
    decreases l.len() - i,
    via spec_fg_scan_decreases
{
    if i < 0 || i >= l.len() {
        None
    } else if l[i] == '\x1b' && i + 1 < l.len() && l[i + 1] == '[' {
        let p = i + first_idx(l.subrange(i, l.len() as int), 'm');
        if p >= l.len() {
            None
        } else {
            let sq = l.subrange(i, p + 1);
            let set = match spec_parse_seq(sq) {
                Some(c) => if c.is_foreground {
                    c.rgb
                } else {
                    cur
                },
                None => cur,
            };
            spec_fg_scan(
                l,
                needle,
                p + 1,
                if sq == "\x1b[m"@ || sq == "\x1b[0m"@ {
                    None
                } else {
                    set
                },
                vis,
            )
        }
    } else {
        let vis2 = vis.push(l[i]);
        if spec_ends_with(vis2, needle) {
            cur
        } else {
            spec_fg_scan(l, needle, i + 1, cur, vis2)
        }
    }
}

#[via_fn]
proof fn spec_fg_scan_decreases(
    l: Seq<char>,
    needle: Seq<char>,
    i: int,
    cur: Option<(u8, u8, u8)>,
    vis: Seq<char>,
) {
    if 0 <= i < l.len() {
        lemma_first_idx(l.subrange(i, l.len() as int), 'm');
    }
}

/// A parsed color record carries at most one color form: never both an
/// RGB triple and a palette index.
pub proof fn lemma_color_forms_exclusive(s: Seq<char>)
    ensures
        (match spec_parse_seq(s) {
            Some(c) => !(c.rgb is Some && c.palette_index is Some),
            None => true,
        }),
{
}

/// Returns the active foreground RGB color at the position where the
/// needle first appears in the visible text of a raw line, or `None`
/// where the needle never appears or no foreground color is active
/// there.
pub fn fg_color_at_text(raw_line: &str, needle: &str) -> (r: Option<(u8, u8, u8)>)
    ensures
        r == spec_fg_scan(raw_line@, needle@, 0, None, Seq::empty()),
{
    proof {
        reveal_strlit("\x1b[m");
        reveal_strlit("\x1b[0m");
    }
    let ghost l = raw_line@;
    let n = raw_line.unicode_len();
    let mut cur: Option<(u8, u8, u8)> = None;
    let mut vis: Vec<char> = Vec::new();
    let mut i: usize = 0;
    loop
        invariant_except_break
            0 <= i <= n,
            n == l.len(),
            raw_line@ == l,
            spec_fg_scan(l, needle@, 0, None, Seq::empty()) == spec_fg_scan(
                l,
                needle@,
                i as int,
                cur,
                vis@,
            ),
        ensures
            spec_fg_scan(l, needle@, 0, None, Seq::empty()) is None,
        decreases n - i,
    {
        proof {
            reveal_strlit("\x1b[m");
            reveal_strlit("\x1b[0m");
        }
        if i >= n {
            break;
        }
        if raw_line.get_char(i) == '\x1b' && i + 1 < n && raw_line.get_char(i + 1) == '[' {
            let j = find_char(raw_line, i, 'm');
            if j >= n {
                proof {
                    assert(i + first_idx(l.subrange(i as int, l.len() as int), 'm') >= l.len());
                }
                break;
            }
            let sq = raw_line.substring_char(i, j + 1);
            proof {
                assert(sq@ =~= l.subrange(i as int, j as int + 1));
            }
            match AnsiColor::parse_seq(sq) {
                Some(parsed) => {
                    if parsed.is_foreground {
                        cur = parsed.rgb;
                    }
                },
                None => {},
            }
            if str_eq(sq, "\x1b[m") || str_eq(sq, "\x1b[0m") {
                cur = None;
            }
            i = j + 1;
        } else {
            let c = raw_line.get_char(i);
            vis.push(c);
            if chars_end_with(&vis, needle) {
                return cur;
            }
            i += 1;
        }
    }
    None
}

} // verus!
