//! ANSI-aware screen-text normalization.
//!
//! A captured line is segmented losslessly into text and escape tokens:
//! an escape token runs from `ESC` through the next ASCII letter or `~`
//! (inclusive; to the end of the line if none follows), and a text token
//! is a maximal run of characters without `ESC`. Trailing-whitespace
//! cleanup keeps every token up to and including the last text token
//! that still holds non-blank content, so styling applied before real
//! content is never lost, and then removes trailing lines whose
//! escape-stripped content is entirely whitespace.

use vstd::prelude::*;
use crate::text::first_idx;
use crate::text::lemma_first_idx;
use crate::text::lemma_first_idx_unique;
use crate::text::spec_split_lines;
use crate::text::spec_trim;
use crate::text::spec_trim_end;
use crate::text::split_lines;
use crate::text::trim_str;
use crate::text::lemma_last_non_ws_end;
use crate::text::views_of;

verus! {

/// Whether `c` ends an escape sequence: an ASCII letter or `~`.
pub open spec fn is_esc_end(c: char) -> bool {
    (65 <= c as u32 <= 90) || (97 <= c as u32 <= 122) || c == '~'
}

fn is_esc_end_exec(c: char) -> (r: bool)
    ensures
        r == is_esc_end(c),
{
    let u = c as u32;
    (65 <= u && u <= 90) || (97 <= u && u <= 122) || c == '~'
}

/// Index of the first escape terminator in `s`, or `s.len()`.
pub open spec fn first_esc_end(s: Seq<char>) -> int
    decreases s.len(),
{
    if s.len() == 0 {
        0
    } else if is_esc_end(s[0]) {
        0
    } else {
        1 + first_esc_end(s.drop_first())
    }
}

pub proof fn lemma_first_esc_end(s: Seq<char>)
    ensures
        0 <= first_esc_end(s) <= s.len(),
        forall|k: int| 0 <= k < first_esc_end(s) ==> !is_esc_end(s[k]),
        first_esc_end(s) < s.len() ==> is_esc_end(s[first_esc_end(s)]),
    decreases s.len(),
{
    if s.len() > 0 && !is_esc_end(s[0]) {
        lemma_first_esc_end(s.drop_first());
        assert forall|k: int| 0 <= k < first_esc_end(s) implies !is_esc_end(s[k]) by {
            if k > 0 {
                assert(s.drop_first()[k - 1] == s[k]);
            }
        }
    }
}

pub proof fn lemma_first_esc_end_unique(s: Seq<char>, m: int)
    requires
        0 <= m <= s.len(),
        forall|k: int| 0 <= k < m ==> !is_esc_end(s[k]),
        m < s.len() ==> is_esc_end(s[m]),
    ensures
        first_esc_end(s) == m,
{
    lemma_first_esc_end(s);
    if first_esc_end(s) < m {
        assert(is_esc_end(s[first_esc_end(s)]));
    }
    if m < first_esc_end(s) {
        assert(!is_esc_end(s[m]));
    }
}

/// Length of the escape token opening `s` (whose first character is
/// `ESC`): through the first terminator after it, or all of `s`.
pub open spec fn esc_token_len(s: Seq<char>) -> int {
    let j = first_esc_end(s.subrange(1, s.len() as int));
    if j == s.len() - 1 {
        s.len() as int
    } else {
        j + 2
    }
}

/// Token classification.
#[derive(Debug, Clone, Copy, PartialEq, Eq, Structural)]
pub enum TokenKind {
    /// Plain visible text.
    Text,
    /// An escape sequence.
    Escape,
}

/// One segment of a line. Concatenating the `raw` fields of a line's
/// tokens reproduces the line exactly.
#[derive(Debug, Clone)]
pub struct Token {
    /// Kind of this segment.
    pub kind: TokenKind,
    /// The exact characters of the segment.
    pub raw: String,
    /// The visible text: equal to `raw` for text tokens, empty for
    /// escape tokens.
    pub text: String,
}

/// The mathematical shape of a token.
#[verifier::ext_equal]
pub struct TokenModel {
    pub kind: TokenKind,
    pub raw: Seq<char>,
    pub text: Seq<char>,
}

impl View for Token {
    type V = TokenModel;

    open spec fn view(&self) -> TokenModel {
        TokenModel { kind: self.kind, raw: self.raw@, text: self.text@ }
    }
}

/// The views of a sequence of tokens.
pub open spec fn token_views(v: Seq<Token>) -> Seq<TokenModel> {
    v.map_values(|t: Token| t@)
}

/// The token segmentation of a line.
pub open spec fn spec_tokens(s: Seq<char>) -> Seq<TokenModel>
    decreases s.len(),
    via spec_tokens_decreases
{
    if s.len() == 0 {
        Seq::empty()
    } else if s[0] == '\x1b' {
        let l = esc_token_len(s);
        seq![TokenModel { kind: TokenKind::Escape, raw: s.subrange(0, l), text: Seq::empty() }]
            + spec_tokens(s.subrange(l, s.len() as int))
    } else {
        let l = first_idx(s, '\x1b');
        seq![TokenModel { kind: TokenKind::Text, raw: s.subrange(0, l), text: s.subrange(0, l) }]
            + spec_tokens(s.subrange(l, s.len() as int))
    }
}

#[via_fn]
proof fn spec_tokens_decreases(s: Seq<char>) {
    if s.len() > 0 {
        if s[0] == '\x1b' {
            lemma_first_esc_end(s.subrange(1, s.len() as int));
        } else {
            lemma_first_idx(s, '\x1b');
            assert(first_idx(s, '\x1b') > 0) by {
                lemma_first_idx(s, '\x1b');
                if first_idx(s, '\x1b') == 0 {
                    assert(s[0] == '\x1b');
                }
            }
        }
    }
}

/// The concatenation of all tokens' raw characters.
pub open spec fn concat_raws(ts: Seq<TokenModel>) -> Seq<char>
    decreases ts.len(),
{
    if ts.len() == 0 {
        Seq::empty()
    } else {
        ts[0].raw + concat_raws(ts.drop_first())
    }
}

/// The concatenation of the text tokens' characters: the line with its
/// escape sequences removed.
pub open spec fn concat_texts(ts: Seq<TokenModel>) -> Seq<char>
    decreases ts.len(),
{
    if ts.len() == 0 {
        Seq::empty()
    } else if ts[0].kind is Text {
        ts[0].raw + concat_texts(ts.drop_first())
    } else {
        concat_texts(ts.drop_first())
    }
}

/// Tokenization is lossless: the raw segments concatenate back to the
/// line itself.
pub proof fn lemma_tokens_lossless(s: Seq<char>)
    ensures
        concat_raws(spec_tokens(s)) == s,
    decreases s.len(),
{
    if s.len() > 0 {
        let l = if s[0] == '\x1b' {
            esc_token_len(s)
        } else {
            first_idx(s, '\x1b')
        };
        if s[0] == '\x1b' {
            lemma_first_esc_end(s.subrange(1, s.len() as int));
        } else {
            lemma_first_idx(s, '\x1b');
            if first_idx(s, '\x1b') == 0 {
                assert(s[0] == '\x1b');
            }
        }
        let ts = spec_tokens(s);
        lemma_tokens_lossless(s.subrange(l, s.len() as int));
        assert(ts.drop_first() =~= spec_tokens(s.subrange(l, s.len() as int)));
        assert(concat_raws(ts) =~= s.subrange(0, l) + s.subrange(l, s.len() as int));
        assert(s.subrange(0, l) + s.subrange(l, s.len() as int) =~= s);
    }
}

/// Splits a line into its text and escape tokens.
pub fn split_tokens(line: &str) -> (r: Vec<Token>)
    ensures
        token_views(r@) == spec_tokens(line@),
{
    let n = line.unicode_len();
    let mut out: Vec<Token> = Vec::new();
    let mut i: usize = 0;
    proof {
        assert(line@.subrange(0, n as int) =~= line@);
        assert(token_views(out@) + spec_tokens(line@.subrange(0, n as int)) =~= spec_tokens(
            line@,
        ));
    }
    while i < n
        invariant
            0 <= i <= n,
            n == line@.len(),
            token_views(out@) + spec_tokens(line@.subrange(i as int, n as int)) == spec_tokens(
                line@,
            ),
        decreases n - i,
    {
        let ghost rest = line@.subrange(i as int, n as int);
        let ghost prev = out@;
        let c = line.get_char(i);
        if c == '\x1b' {
            // scan past the ESC for the first terminator
            let mut j: usize = i + 1;
            while j < n && !is_esc_end_exec(line.get_char(j))
                invariant
                    i + 1 <= j <= n,
                    n == line@.len(),
                    forall|k: int| i + 1 <= k < j ==> !is_esc_end(line@[k]),
                decreases n - j,
            {
                j += 1;
            }
            let e: usize = if j < n {
                j + 1
            } else {
                n
            };
            proof {
                let tail = rest.subrange(1, rest.len() as int);
                assert forall|k: int| 0 <= k < j - i - 1 implies !is_esc_end(tail[k]) by {
                    assert(tail[k] == line@[i + 1 + k]);
                }
                lemma_first_esc_end_unique(tail, j - i - 1);
                assert(esc_token_len(rest) == e - i);
            }
            let raw = line.substring_char(i, e);
            out.push(Token { kind: TokenKind::Escape, raw: String::from_str(raw), text: String::new() });
            proof {
                assert(rest[0] == '\x1b');
                assert(raw@ =~= rest.subrange(0, (e - i) as int));
                assert(rest.subrange((e - i) as int, rest.len() as int) =~= line@.subrange(
                    e as int,
                    n as int,
                ));
                assert(spec_tokens(rest) =~= seq![
                    TokenModel { kind: TokenKind::Escape, raw: raw@, text: Seq::empty() },
                ] + spec_tokens(line@.subrange(e as int, n as int)));
                assert(token_views(out@) =~~= token_views(prev).push(
                    TokenModel { kind: TokenKind::Escape, raw: raw@, text: Seq::empty() },
                ));
                assert(token_views(out@) + spec_tokens(line@.subrange(e as int, n as int))
                    =~~= spec_tokens(line@));
            }
            i = e;
        } else {
            let mut j: usize = i + 1;
            while j < n && line.get_char(j) != '\x1b'
                invariant
                    i + 1 <= j <= n,
                    n == line@.len(),
                    forall|k: int| i + 1 <= k < j ==> line@[k] != '\x1b',
                decreases n - j,
            {
                j += 1;
            }
            proof {
                assert forall|k: int| 0 <= k < j - i implies rest[k] != '\x1b' by {
                    assert(rest[k] == line@[i + k]);
                }
                lemma_first_idx_unique(rest, '\x1b', j - i);
            }
            let raw = line.substring_char(i, j);
            out.push(Token { kind: TokenKind::Text, raw: String::from_str(raw), text: String::from_str(raw) });
            proof {
                assert(rest[0] != '\x1b');
                assert(raw@ =~= rest.subrange(0, (j - i) as int));
                assert(rest.subrange((j - i) as int, rest.len() as int) =~= line@.subrange(
                    j as int,
                    n as int,
                ));
                assert(spec_tokens(rest) =~= seq![
                    TokenModel { kind: TokenKind::Text, raw: raw@, text: raw@ },
                ] + spec_tokens(line@.subrange(j as int, n as int)));
                assert(token_views(out@) =~~= token_views(prev).push(
                    TokenModel { kind: TokenKind::Text, raw: raw@, text: raw@ },
                ));
                assert(token_views(out@) + spec_tokens(line@.subrange(j as int, n as int))
                    =~~= spec_tokens(line@));
            }
            i = j;
        }
    }
    proof {
        assert(spec_tokens(line@.subrange(n as int, n as int)) =~= Seq::<TokenModel>::empty());
        assert(token_views(out@) =~~= token_views(out@) + spec_tokens(
            line@.subrange(n as int, n as int),
        ));
    }
    out
}

/// The line with its escape sequences removed.
pub open spec fn spec_strip(s: Seq<char>) -> Seq<char> {
    concat_texts(spec_tokens(s))
}

/// Removes every escape token from `raw`, keeping the visible text.
pub fn strip_escape_codes(raw: &str) -> (r: String)
    ensures
        r@ == spec_strip(raw@),
{
    let toks = split_tokens(raw);
    let ghost tv = spec_tokens(raw@);
    let mut out = String::new();
    let mut i: usize = 0;
    proof {
        assert(tv.subrange(0, tv.len() as int) =~= tv);
    }
    while i < toks.len()
        invariant
            0 <= i <= toks@.len(),
            token_views(toks@) == tv,
            out@ + concat_texts(tv.subrange(i as int, tv.len() as int)) == concat_texts(tv),
        decreases toks@.len() - i,
    {
        let ghost rest = tv.subrange(i as int, tv.len() as int);
        proof {
            assert(rest.drop_first() =~= tv.subrange(i as int + 1, tv.len() as int));
            assert(rest[0] == tv[i as int]);
            assert(token_views(toks@)[i as int] == toks@[i as int]@);
        }
        match toks[i].kind {
            TokenKind::Text => {
                out.append(toks[i].raw.as_str());
            },
            TokenKind::Escape => {},
        }
        proof {
            assert(out@ + concat_texts(tv.subrange(i as int + 1, tv.len() as int)) =~= concat_texts(
                tv,
            ));
        }
        i += 1;
    }
    proof {
        assert(concat_texts(tv.subrange(tv.len() as int, tv.len() as int)) =~= Seq::<char>::empty());
        assert(out@ =~= out@ + concat_texts(tv.subrange(tv.len() as int, tv.len() as int)));
    }
    out
}

/// Whether a text holds any non-whitespace character (its right-trimmed
/// form is non-empty).
pub open spec fn has_content(s: Seq<char>) -> bool {
    spec_trim_end(s).len() > 0
}

fn line_has_content(s: &str) -> (r: bool)
    ensures
        r == has_content(s@),
{
    proof {
        crate::text::lemma_first_non_ws(s@);
        lemma_last_non_ws_end(s@);
    }
    let t = trim_str(s);
    t.unicode_len() > 0
}

/// One past the index of the last text token whose content is non-blank,
/// or 0 where no such token exists.
pub open spec fn spec_keep(ts: Seq<TokenModel>) -> int
    decreases ts.len(),
{
    if ts.len() == 0 {
        0
    } else if ts.last().kind is Text && has_content(ts.last().text) {
        ts.len() as int
    } else {
        spec_keep(ts.drop_last())
    }
}

pub proof fn lemma_spec_keep(ts: Seq<TokenModel>)
    ensures
        0 <= spec_keep(ts) <= ts.len(),
        spec_keep(ts) > 0 ==> ts[spec_keep(ts) - 1].kind is Text && has_content(
            ts[spec_keep(ts) - 1].text,
        ),
        forall|k: int|
            spec_keep(ts) <= k < ts.len() ==> !(ts[k].kind is Text && has_content(ts[k].text)),
    decreases ts.len(),
{
    if ts.len() > 0 && !(ts.last().kind is Text && has_content(ts.last().text)) {
        lemma_spec_keep(ts.drop_last());
        assert forall|k: int|
            spec_keep(ts) <= k < ts.len() implies !(ts[k].kind is Text && has_content(
            ts[k].text,
        )) by {
            if k < ts.len() - 1 {
                assert(ts.drop_last()[k] == ts[k]);
            }
        }
    }
}

/// A line cleaned of trailing blank content: every token up to and
/// including the last non-blank text token, reconstructed exactly.
pub open spec fn spec_clean_line(l: Seq<char>) -> Seq<char> {
    let ts = spec_tokens(l);
    concat_raws(ts.subrange(0, spec_keep(ts)))
}

proof fn lemma_concat_raws_push(ts: Seq<TokenModel>, t: TokenModel)
    ensures
        concat_raws(ts.push(t)) == concat_raws(ts) + t.raw,
    decreases ts.len(),
{
    if ts.len() == 0 {
        let p = ts.push(t);
        assert(p[0] == t);
        assert(p.drop_first() =~= Seq::<TokenModel>::empty());
        assert(concat_raws(p.drop_first()) == Seq::<char>::empty());
        assert(concat_raws(p) == p[0].raw + concat_raws(p.drop_first()));
        assert(concat_raws(p) =~= concat_raws(ts) + t.raw);
    } else {
        assert(ts.push(t).drop_first() =~= ts.drop_first().push(t));
        lemma_concat_raws_push(ts.drop_first(), t);
        assert(concat_raws(ts.push(t)) =~= concat_raws(ts) + t.raw);
    }
}

/// Cleans one line: drops trailing blank text tokens and any escape
/// tokens that only stand after the last real content.
pub fn clean_line(line: &str) -> (r: String)
    ensures
        r@ == spec_clean_line(line@),
{
    let toks = split_tokens(line);
    let ghost tv = spec_tokens(line@);
    let mut keep: usize = 0;
    let mut idx: usize = 0;
    proof {
        assert(tv.subrange(0, 0) =~= Seq::<TokenModel>::empty());
    }
    while idx < toks.len()
        invariant
            0 <= keep <= idx <= toks@.len(),
            token_views(toks@) == tv,
            keep as int == spec_keep(tv.subrange(0, idx as int)),
        decreases toks@.len() - idx,
    {
        let ghost pre = tv.subrange(0, idx as int);
        let ghost post = tv.subrange(0, idx as int + 1);
        proof {
            assert(post.drop_last() =~= pre);
            assert(post.last() == tv[idx as int]);
            assert(token_views(toks@)[idx as int] == toks@[idx as int]@);
        }
        let is_text = match toks[idx].kind {
            TokenKind::Text => true,
            TokenKind::Escape => false,
        };
        if is_text && line_has_content(toks[idx].text.as_str()) {
            keep = idx + 1;
        }
        idx += 1;
    }
    proof {
        assert(tv.subrange(0, toks@.len() as int) =~= tv);
    }
    let mut out = String::new();
    let mut i: usize = 0;
    proof {
        assert(concat_raws(tv.subrange(0, 0)) =~= Seq::<char>::empty());
    }
    while i < keep
        invariant
            0 <= i <= keep <= toks@.len(),
            token_views(toks@) == tv,
            out@ == concat_raws(tv.subrange(0, i as int)),
        decreases keep - i,
    {
        let ghost pre = tv.subrange(0, i as int);
        proof {
            assert(tv.subrange(0, i as int + 1) =~= pre.push(tv[i as int]));
            lemma_concat_raws_push(pre, tv[i as int]);
            assert(token_views(toks@)[i as int] == toks@[i as int]@);
        }
        out.append(toks[i].raw.as_str());
        i += 1;
    }
    out
}

/// Whether a line's escape-stripped content is entirely whitespace.
pub open spec fn is_blank_line(l: Seq<char>) -> bool {
    spec_trim(spec_strip(l)).len() == 0
}

/// Every line cleaned.
pub open spec fn spec_clean_lines(ls: Seq<Seq<char>>) -> Seq<Seq<char>> {
    ls.map_values(|l: Seq<char>| spec_clean_line(l))
}

/// Trailing blank lines removed.
pub open spec fn drop_trailing_blank(ls: Seq<Seq<char>>) -> Seq<Seq<char>>
    decreases ls.len(),
{
    if ls.len() == 0 {
        ls
    } else if is_blank_line(ls.last()) {
        drop_trailing_blank(ls.drop_last())
    } else {
        ls
    }
}

/// Lines joined with a newline between each pair.
pub open spec fn spec_join(ls: Seq<Seq<char>>) -> Seq<char>
    decreases ls.len(),
{
    if ls.len() == 0 {
        Seq::empty()
    } else if ls.len() == 1 {
        ls[0]
    } else {
        ls[0] + seq!['\n'] + spec_join(ls.drop_first())
    }
}

proof fn lemma_join_push(ls: Seq<Seq<char>>, x: Seq<char>)
    requires
        ls.len() >= 1,
    ensures
        spec_join(ls.push(x)) == spec_join(ls) + seq!['\n'] + x,
    decreases ls.len(),
{
    if ls.len() == 1 {
        let p = ls.push(x);
        assert(p[0] == ls[0]);
        assert(p.drop_first() =~= seq![x]);
        assert(spec_join(p.drop_first()) == x);
        assert(spec_join(p) == p[0] + seq!['\n'] + spec_join(p.drop_first()));
        assert(spec_join(p) =~= spec_join(ls) + seq!['\n'] + x);
    } else {
        assert(ls.push(x).drop_first() =~= ls.drop_first().push(x));
        lemma_join_push(ls.drop_first(), x);
        assert(spec_join(ls.push(x)) =~= spec_join(ls) + seq!['\n'] + x);
    }
}

/// The cleaned lines of a whole capture: each line cleaned, then
/// trailing blank lines removed.
pub open spec fn spec_cleaned_lines(s: Seq<char>) -> Seq<Seq<char>> {
    drop_trailing_blank(spec_clean_lines(spec_split_lines(s)))
}

/// The cleaned capture as one text.
pub open spec fn spec_clean_text(s: Seq<char>) -> Seq<char> {
    spec_join(spec_cleaned_lines(s))
}

/// Cleans a whole capture: per-line trailing-blank cleanup, then
/// trailing blank lines dropped, lines rejoined with newlines.
pub fn clean_trailing_whitespace(input: &str) -> (r: String)
    ensures
        r@ == spec_clean_text(input@),
{
    let lines = split_lines(input);
    let ghost ls = spec_split_lines(input@);
    let mut cleaned: Vec<String> = Vec::new();
    let mut i: usize = 0;
    while i < lines.len()
        invariant
            0 <= i <= lines@.len(),
            views_of(lines@) == ls,
            cleaned@.len() == i,
            forall|j: int| 0 <= j < i ==> views_of(cleaned@)[j] == spec_clean_line(ls[j]),
        decreases lines@.len() - i,
    {
        proof {
            assert(views_of(lines@)[i as int] == lines@[i as int]@);
        }
        let ghost prev = cleaned@;
        cleaned.push(clean_line(lines[i].as_str()));
        proof {
            assert forall|j: int| 0 <= j < i + 1 implies views_of(cleaned@)[j]
                == spec_clean_line(ls[j]) by {
                assert(views_of(cleaned@)[j] == cleaned@[j]@);
                if j < i {
                    assert(cleaned@[j] == prev[j]);
                    assert(views_of(prev)[j] == prev[j]@);
                }
            }
        }
        i += 1;
    }
    proof {
        assert(views_of(cleaned@) =~= spec_clean_lines(ls));
    }
    let ghost cv0 = views_of(cleaned@);
    loop
        invariant
            drop_trailing_blank(cv0) == drop_trailing_blank(views_of(cleaned@)),
        ensures
            drop_trailing_blank(cv0) == views_of(cleaned@),
        decreases cleaned@.len(),
    {
        if cleaned.len() == 0 {
            proof {
                assert(drop_trailing_blank(views_of(cleaned@)) =~= views_of(cleaned@));
            }
            break;
        }
        let last_idx = cleaned.len() - 1;
        let stripped = strip_escape_codes(cleaned[last_idx].as_str());
        let t = trim_str(stripped.as_str());
        let blank = t.unicode_len() == 0;
        proof {
            assert(views_of(cleaned@)[last_idx as int] == cleaned@[last_idx as int]@);
            assert(blank == is_blank_line(views_of(cleaned@).last()));
        }
        if !blank {
            proof {
                assert(drop_trailing_blank(views_of(cleaned@)) =~= views_of(cleaned@));
            }
            break;
        }
        let ghost before_pop = views_of(cleaned@);
        cleaned.pop();
        proof {
            assert(views_of(cleaned@) =~= before_pop.drop_last());
            assert(drop_trailing_blank(before_pop) == drop_trailing_blank(views_of(cleaned@)));
        }
    }
    let ghost kept = views_of(cleaned@);
    let mut out = String::new();
    let mut j: usize = 0;
    proof {
        reveal_strlit("\n");
        assert(spec_join(kept.subrange(0, 0)) =~= Seq::<char>::empty());
    }
    while j < cleaned.len()
        invariant
            0 <= j <= cleaned@.len(),
            views_of(cleaned@) == kept,
            out@ == spec_join(kept.subrange(0, j as int)),
        decreases cleaned@.len() - j,
    {
        let ghost pre = kept.subrange(0, j as int);
        proof {
            reveal_strlit("\n");
            assert(kept.subrange(0, j as int + 1) =~= pre.push(kept[j as int]));
            assert(views_of(cleaned@)[j as int] == cleaned@[j as int]@);
            if j > 0 {
                lemma_join_push(pre, kept[j as int]);
            } else {
                assert(spec_join(seq![kept[0]]) == kept[0]);
            }
        }
        if j > 0 {
            out.append("\n");
        }
        out.append(cleaned[j].as_str());
        proof {
            assert(out@ =~= spec_join(kept.subrange(0, j as int + 1)));
        }
        j += 1;
    }
    proof {
        assert(kept.subrange(0, cleaned@.len() as int) =~= kept);
    }
    out
}

/// Shape of a well-formed text token: non-empty, free of `ESC`, its
/// visible text equal to its raw characters.
pub open spec fn wf_text_token(t: TokenModel) -> bool {
    t.raw.len() > 0 && t.text == t.raw && (forall|m: int|
        0 <= m < t.raw.len() ==> t.raw[m] != '\x1b')
}

/// Shape of a well-formed escape token: starts with `ESC`, no terminator
/// strictly inside, no visible text.
pub open spec fn wf_esc_token(t: TokenModel) -> bool {
    t.raw.len() > 0 && t.raw[0] == '\x1b' && t.text == Seq::<char>::empty() && (forall|m: int|
        1 <= m < t.raw.len() - 1 ==> !is_esc_end(t.raw[m]))
}

/// Whether an escape token ends with its terminator.
pub open spec fn esc_terminated(t: TokenModel) -> bool {
    t.raw.len() >= 2 && is_esc_end(t.raw.last())
}

/// Well-formedness of the token at index `i` of a token sequence:
/// shaped by its kind, terminated where another token follows, and, for
/// a text token, followed by an escape token where anything follows.
pub open spec fn token_wf_at(ts: Seq<TokenModel>, i: int) -> bool {
    &&& (ts[i].kind is Text ==> wf_text_token(ts[i]))
    &&& (ts[i].kind is Escape ==> wf_esc_token(ts[i]))
    &&& (i < ts.len() - 1 && ts[i].kind is Escape ==> esc_terminated(ts[i]))
    &&& (i < ts.len() - 1 && ts[i].kind is Text ==> ts[i + 1].kind is Escape)
}

/// Every token of the sequence is well formed in its place.
pub open spec fn tokens_wf(ts: Seq<TokenModel>) -> bool {
    forall|i: int| 0 <= i < ts.len() ==> #[trigger] token_wf_at(ts, i)
}

/// Structural facts about a line's token sequence: every token is well
/// formed, every escape token except possibly the last is terminated,
/// and no two text tokens are adjacent.
pub proof fn lemma_tokens_wf(s: Seq<char>)
    ensures
        tokens_wf(spec_tokens(s)),
    decreases s.len(),
{
    if s.len() > 0 {
        let ts = spec_tokens(s);
        let sub1 = s.subrange(1, s.len() as int);
        let l = if s[0] == '\x1b' {
            esc_token_len(s)
        } else {
            first_idx(s, '\x1b')
        };
        if s[0] == '\x1b' {
            lemma_first_esc_end(sub1);
        } else {
            lemma_first_idx(s, '\x1b');
            if first_idx(s, '\x1b') == 0 {
                assert(s[0] == '\x1b');
            }
        }
        let tail = s.subrange(l, s.len() as int);
        let rest = spec_tokens(tail);
        lemma_tokens_wf(tail);
        assert(ts == seq![ts[0]] + rest);
        assert(token_wf_at(ts, 0)) by {
            if s[0] == '\x1b' {
                let j = first_esc_end(sub1);
                assert(ts[0].raw =~= s.subrange(0, l));
                assert(wf_esc_token(ts[0])) by {
                    assert forall|m: int| 1 <= m < ts[0].raw.len() - 1 implies !is_esc_end(
                        ts[0].raw[m],
                    ) by {
                        assert(ts[0].raw[m] == sub1[m - 1]);
                    }
                }
                if 0 < ts.len() - 1 {
                    assert(rest.len() > 0);
                    assert(tail.len() > 0);
                    assert(l < s.len());
                    assert(j < s.len() - 1);
                    assert(l == j + 2);
                    assert(ts[0].raw.last() == sub1[j]);
                    assert(esc_terminated(ts[0]));
                }
            } else {
                assert(wf_text_token(ts[0])) by {
                    assert forall|m: int| 0 <= m < ts[0].raw.len() implies ts[0].raw[m]
                        != '\x1b' by {
                        assert(ts[0].raw[m] == s[m]);
                    }
                }
                if 0 < ts.len() - 1 {
                    assert(l < s.len());
                    assert(s[l] == '\x1b');
                    assert(tail[0] == '\x1b');
                    assert(ts[1] == rest[0]);
                    assert(rest[0].kind is Escape);
                }
            }
        }
        assert forall|i: int| 0 <= i < ts.len() implies #[trigger] token_wf_at(ts, i) by {
            if i >= 1 {
                assert(token_wf_at(rest, i - 1));
                assert(ts[i] == rest[i - 1]);
                if i < ts.len() - 1 {
                    assert(ts[i + 1] == rest[i]);
                }
            }
        }
    } else {
        assert(spec_tokens(s).len() == 0);
    }
}

/// Conditions under which a token sequence re-tokenizes to itself: every
/// token well formed, every escape token terminated, and every text
/// token followed by an escape token or nothing.
pub open spec fn retokenizable(ts: Seq<TokenModel>) -> bool {
    forall|i: int|
        0 <= i < ts.len() ==> #[trigger] token_wf_at(ts, i) && (ts[i].kind is Escape
            ==> esc_terminated(ts[i]))
}

proof fn lemma_concat_raws_append(a: Seq<TokenModel>, b: Seq<TokenModel>)
    ensures
        concat_raws(a + b) == concat_raws(a) + concat_raws(b),
    decreases a.len(),
{
    if a.len() == 0 {
        assert(a + b =~= b);
        assert(concat_raws(a) + concat_raws(b) =~= concat_raws(b));
    } else {
        assert((a + b).drop_first() =~= a.drop_first() + b);
        assert((a + b)[0] == a[0]);
        lemma_concat_raws_append(a.drop_first(), b);
        assert(concat_raws(a + b) =~= concat_raws(a) + concat_raws(b));
    }
}

/// Tokenizing the concatenation of a retokenizable token sequence gives
/// back exactly that sequence.
#[verifier::rlimit(80)]
#[verifier::spinoff_prover]
pub proof fn lemma_retokenize(ts: Seq<TokenModel>)
    requires
        retokenizable(ts),
    ensures
        spec_tokens(concat_raws(ts)) == ts,
    decreases ts.len(),
{
    if ts.len() == 0 {
        assert(spec_tokens(concat_raws(ts)) =~= ts);
    } else {
        let t0 = ts[0];
        let rest = ts.drop_first();
        let s = concat_raws(ts);
        let c = concat_raws(rest);
        assert(s == t0.raw + c);
        assert(token_wf_at(ts, 0));
        assert(retokenizable(rest)) by {
            assert forall|i: int| 0 <= i < rest.len() implies #[trigger] token_wf_at(rest, i) && (
            rest[i].kind is Escape ==> esc_terminated(rest[i])) by {
                assert(token_wf_at(ts, i + 1));
                assert(rest[i] == ts[i + 1]);
                if i < rest.len() - 1 {
                    assert(rest[i + 1] == ts[i + 2]);
                }
            }
        }
        lemma_retokenize(rest);
        let l = t0.raw.len() as int;
        if t0.kind is Escape {
            assert(wf_esc_token(t0) && esc_terminated(t0));
            assert(s[0] == '\x1b');
            let sub1 = s.subrange(1, s.len() as int);
            assert forall|k: int| 0 <= k < l - 2 implies !is_esc_end(sub1[k]) by {
                assert(sub1[k] == s[k + 1]);
                assert(s[k + 1] == t0.raw[k + 1]);
            }
            assert(sub1[l - 2] == t0.raw.last());
            lemma_first_esc_end_unique(sub1, l - 2);
            assert(esc_token_len(s) == l);
            assert(s.subrange(0, l) =~= t0.raw);
            assert(s.subrange(l, s.len() as int) =~= c);
            assert(spec_tokens(s)[0] =~~= t0);
            assert(spec_tokens(s) =~~= ts);
        } else {
            assert(wf_text_token(t0));
            assert(s[0] != '\x1b');
            if rest.len() == 0 {
                assert(c =~= Seq::<char>::empty());
                assert forall|k: int| 0 <= k < l implies s[k] != '\x1b' by {
                    assert(s[k] == t0.raw[k]);
                }
                lemma_first_idx_unique(s, '\x1b', l);
            } else {
                assert(rest[0] == ts[1]);
                assert(ts[1].kind is Escape);
                assert(token_wf_at(ts, 1));
                assert(c == rest[0].raw + concat_raws(rest.drop_first()));
                assert(c[0] == rest[0].raw[0]);
                assert(s[l] == '\x1b');
                assert forall|k: int| 0 <= k < l implies s[k] != '\x1b' by {
                    assert(s[k] == t0.raw[k]);
                }
                lemma_first_idx_unique(s, '\x1b', l);
            }
            assert(first_idx(s, '\x1b') == l);
            assert(s.subrange(0, l) =~= t0.raw);
            assert(s.subrange(l, s.len() as int) =~= c);
            assert(spec_tokens(s)[0] =~~= t0);
            assert(spec_tokens(s) =~~= ts);
        }
    }
}

/// The tokens of a cleaned line are exactly the kept prefix of the
/// original line's tokens: cleanup reconstructs, token for token, what
/// stood before the cut.
#[verifier::rlimit(80)]
#[verifier::spinoff_prover]
pub proof fn lemma_clean_line_tokens(l: Seq<char>)
    ensures
        spec_tokens(spec_clean_line(l)) == spec_tokens(l).subrange(
            0,
            spec_keep(spec_tokens(l)),
        ),
{
    let ts = spec_tokens(l);
    let k = spec_keep(ts);
    lemma_spec_keep(ts);
    lemma_tokens_wf(l);
    let prefix = ts.subrange(0, k);
    if k == 0 {
        assert(prefix =~= Seq::<TokenModel>::empty());
        assert(spec_clean_line(l) == concat_raws(prefix));
        assert(concat_raws(prefix) =~= Seq::<char>::empty());
        assert(spec_tokens(spec_clean_line(l)) =~= prefix);
    } else {
        assert(ts[k - 1].kind is Text);
        assert(retokenizable(prefix)) by {
            assert forall|i: int| 0 <= i < prefix.len() implies #[trigger] token_wf_at(prefix, i)
                && (prefix[i].kind is Escape ==> esc_terminated(prefix[i])) by {
                assert(token_wf_at(ts, i));
                assert(prefix[i] == ts[i]);
                if i < prefix.len() - 1 {
                    assert(prefix[i + 1] == ts[i + 1]);
                }
                if prefix[i].kind is Escape {
                    assert(i != k - 1);
                    assert(i < ts.len() - 1);
                }
                if prefix[i].kind is Text && i < prefix.len() - 1 {
                    assert(i < ts.len() - 1);
                }
            }
        }
        lemma_retokenize(prefix);
    }
}

/// Cleaning a line is idempotent.
pub proof fn lemma_clean_line_idempotent(l: Seq<char>)
    ensures
        spec_clean_line(spec_clean_line(l)) == spec_clean_line(l),
{
    let ts = spec_tokens(l);
    let k = spec_keep(ts);
    lemma_spec_keep(ts);
    lemma_clean_line_tokens(l);
    let p = spec_clean_line(l);
    let prefix = ts.subrange(0, k);
    assert(spec_tokens(p) == prefix);
    if k == 0 {
        assert(prefix =~= Seq::<TokenModel>::empty());
        assert(spec_keep(prefix) == 0);
        assert(spec_clean_line(p) == concat_raws(prefix.subrange(0, 0)));
        assert(prefix.subrange(0, 0) =~= prefix);
        assert(spec_clean_line(p) == p);
    } else {
        assert(prefix.last() == ts[k - 1]);
        assert(spec_keep(prefix) == k);
        assert(prefix.subrange(0, k) =~= prefix);
        assert(spec_clean_line(p) == concat_raws(prefix));
        assert(concat_raws(prefix) == p);
    }
}

/// A cleaned line is a prefix of the line itself.
pub proof fn lemma_clean_line_prefix(l: Seq<char>)
    ensures
        spec_clean_line(l).len() <= l.len(),
        spec_clean_line(l) == l.subrange(0, spec_clean_line(l).len() as int),
{
    let ts = spec_tokens(l);
    let k = spec_keep(ts);
    lemma_spec_keep(ts);
    lemma_tokens_lossless(l);
    assert(ts.subrange(0, k) + ts.subrange(k, ts.len() as int) =~= ts);
    lemma_concat_raws_append(ts.subrange(0, k), ts.subrange(k, ts.len() as int));
    let p = spec_clean_line(l);
    assert(p + concat_raws(ts.subrange(k, ts.len() as int)) == l);
    assert(p =~= l.subrange(0, p.len() as int));
}

/// Cleanup never deletes styling applied before the last non-blank
/// content of a line: every token that stands before some text token
/// with non-blank content survives cleanup verbatim, at its index.
pub proof fn lemma_clean_line_keeps_styling(l: Seq<char>, i: int, j: int)
    requires
        0 <= i < j < spec_tokens(l).len(),
        spec_tokens(l)[j].kind is Text,
        has_content(spec_tokens(l)[j].text),
    ensures
        i < spec_tokens(spec_clean_line(l)).len(),
        spec_tokens(spec_clean_line(l))[i] == spec_tokens(l)[i],
{
    let ts = spec_tokens(l);
    lemma_spec_keep(ts);
    assert(j < spec_keep(ts));
    lemma_clean_line_tokens(l);
}

proof fn lemma_split_lines_no_nl(s: Seq<char>)
    ensures
        forall|i: int, k: int|
            0 <= i < spec_split_lines(s).len() && 0 <= k < spec_split_lines(s)[i].len()
                ==> #[trigger] spec_split_lines(s)[i][k] != '\n',
    decreases s.len(),
{
    if s.len() > 0 {
        crate::text::lemma_first_idx(s, '\n');
        let i0 = first_idx(s, '\n');
        let lines = spec_split_lines(s);
        if i0 == s.len() {
            assert forall|i: int, k: int|
                0 <= i < lines.len() && 0 <= k < lines[i].len() implies #[trigger] lines[i][k]
                != '\n' by {
                assert(lines[i] == s);
            }
        } else {
            let seg = crate::text::strip_cr(s.subrange(0, i0));
            let tail = s.subrange(i0 + 1, s.len() as int);
            lemma_split_lines_no_nl(tail);
            assert(lines == seq![seg] + spec_split_lines(tail));
            assert forall|i: int, k: int|
                0 <= i < lines.len() && 0 <= k < lines[i].len() implies #[trigger] lines[i][k]
                != '\n' by {
                if i == 0 {
                    assert(lines[0] == seg);
                    assert(seg[k] == s.subrange(0, i0)[k]);
                    assert(s.subrange(0, i0)[k] == s[k]);
                } else {
                    assert(lines[i] == spec_split_lines(tail)[i - 1]);
                }
            }
        }
    }
}

proof fn lemma_split_join(ls: Seq<Seq<char>>)
    requires
        forall|i: int, k: int|
            0 <= i < ls.len() && 0 <= k < ls[i].len() ==> #[trigger] ls[i][k] != '\n',
        forall|i: int|
            0 <= i < ls.len() - 1 ==> !((#[trigger] ls[i]).len() > 0 && ls[i].last() == '\r'),
        ls.len() > 0 ==> ls.last().len() > 0,
    ensures
        spec_split_lines(spec_join(ls)) == ls,
    decreases ls.len(),
{
    if ls.len() == 0 {
        assert(spec_split_lines(spec_join(ls)) =~= ls);
    } else if ls.len() == 1 {
        let j = spec_join(ls);
        assert(j == ls[0]);
        assert(j.len() > 0);
        assert forall|k: int| 0 <= k < j.len() implies j[k] != '\n' by {
            assert(ls[0][k] != '\n');
        }
        crate::text::lemma_first_idx_unique(j, '\n', j.len() as int);
        assert(spec_split_lines(j) =~= seq![ls[0]]);
        assert(spec_split_lines(j) =~= ls);
    } else {
        let j = spec_join(ls);
        let l0 = ls[0];
        let rest = ls.drop_first();
        let jr = spec_join(rest);
        assert(j == l0 + seq!['\n'] + jr);
        assert(j.len() == l0.len() + 1 + jr.len());
        assert forall|k: int| 0 <= k < l0.len() implies j[k] != '\n' by {
            assert(j[k] == l0[k]);
            assert(ls[0][k] != '\n');
        }
        assert(j[l0.len() as int] == '\n');
        crate::text::lemma_first_idx_unique(j, '\n', l0.len() as int);
        assert(first_idx(j, '\n') < j.len());
        // the segment before the newline is the first line unchanged
        assert(j.subrange(0, l0.len() as int) =~= l0);
        assert(crate::text::strip_cr(l0) == l0);
        lemma_split_join(rest);
        assert forall|i: int, k: int|
            0 <= i < rest.len() && 0 <= k < rest[i].len() implies #[trigger] rest[i][k]
            != '\n' by {
            assert(rest[i] == ls[i + 1]);
        }
        assert(j.subrange(l0.len() as int + 1, j.len() as int) =~= jr);
        assert(spec_split_lines(j) == seq![l0] + spec_split_lines(jr));
        assert(spec_split_lines(j) =~= ls);
    }
}

/// Facts about trailing-blank removal: the result is the longest prefix
/// whose last line is non-blank, and everything removed was blank.
pub proof fn lemma_drop_trailing_blank(ls: Seq<Seq<char>>)
    ensures
        drop_trailing_blank(ls).len() <= ls.len(),
        drop_trailing_blank(ls) == ls.subrange(0, drop_trailing_blank(ls).len() as int),
        forall|m: int|
            drop_trailing_blank(ls).len() <= m < ls.len() ==> is_blank_line(#[trigger] ls[m]),
        drop_trailing_blank(ls).len() > 0 ==> !is_blank_line(drop_trailing_blank(ls).last()),
    decreases ls.len(),
{
    let r = drop_trailing_blank(ls);
    if ls.len() == 0 {
        assert(r =~= ls.subrange(0, 0));
    } else if is_blank_line(ls.last()) {
        lemma_drop_trailing_blank(ls.drop_last());
        assert forall|m: int| r.len() <= m < ls.len() implies is_blank_line(#[trigger] ls[m]) by {
            if m < ls.len() - 1 {
                assert(ls.drop_last()[m] == ls[m]);
            }
        }
        assert(ls.drop_last().subrange(0, r.len() as int) =~= ls.subrange(0, r.len() as int));
    } else {
        assert(r =~= ls.subrange(0, ls.len() as int));
    }
}

/// Cleanup always removes fully blank trailing lines and nothing else at
/// the line level: the cleaned text's lines are the longest prefix of
/// the per-line-cleaned lines ending in a non-blank line, and every line
/// cut off the end was blank.
pub proof fn lemma_removes_blank_trailing_lines(s: Seq<char>)
    ensures
        spec_cleaned_lines(s).len() > 0 ==> !is_blank_line(spec_cleaned_lines(s).last()),
        spec_cleaned_lines(s) == spec_clean_lines(spec_split_lines(s)).subrange(
            0,
            spec_cleaned_lines(s).len() as int,
        ),
        forall|m: int|
            spec_cleaned_lines(s).len() <= m < spec_clean_lines(spec_split_lines(s)).len()
                ==> is_blank_line(#[trigger] spec_clean_lines(spec_split_lines(s))[m]),
{
    lemma_drop_trailing_blank(spec_clean_lines(spec_split_lines(s)));
}

/// Trailing-whitespace cleanup is idempotent: applying it twice yields
/// the same text as applying it once. The one family of inputs left out:
/// where a cleaned line other than the last ends in a bare carriage
/// return, rejoining and resplitting would treat that `\r` as part of
/// the following line terminator.
pub proof fn lemma_clean_idempotent(s: Seq<char>)
    requires
        forall|i: int|
            0 <= i < spec_cleaned_lines(s).len() - 1 ==> !((#[trigger] spec_cleaned_lines(
                s,
            )[i]).len() > 0 && spec_cleaned_lines(s)[i].last() == '\r'),
    ensures
        spec_clean_text(spec_clean_text(s)) == spec_clean_text(s),
{
    let ls0 = spec_split_lines(s);
    let cls = spec_clean_lines(ls0);
    let cl = spec_cleaned_lines(s);
    lemma_drop_trailing_blank(cls);
    lemma_split_lines_no_nl(s);
    // each kept line is a cleaned original line
    assert forall|i: int| 0 <= i < cl.len() implies cl[i] == spec_clean_line(ls0[i]) by {
        assert(cl[i] == cls[i]);
    }
    // kept lines carry no newline
    assert forall|i: int, k: int|
        0 <= i < cl.len() && 0 <= k < cl[i].len() implies #[trigger] cl[i][k] != '\n' by {
        lemma_clean_line_prefix(ls0[i]);
        assert(cl[i] == spec_clean_line(ls0[i]));
        assert(cl[i][k] == ls0[i][k]);
        assert(ls0[i][k] != '\n');
    }
    // the last kept line is non-blank, hence non-empty
    if cl.len() > 0 {
        assert(!is_blank_line(cl.last()));
        if cl.last().len() == 0 {
            assert(spec_tokens(cl.last()).len() == 0);
            assert(spec_strip(cl.last()) =~= Seq::<char>::empty());
            assert(spec_trim(spec_strip(cl.last())) =~= Seq::<char>::empty());
        }
        assert(cl.last().len() > 0);
    }
    lemma_split_join(cl);
    assert(spec_split_lines(spec_clean_text(s)) == cl);
    // the second pass changes no line
    assert(spec_clean_lines(cl) =~= cl) by {
        assert forall|i: int| 0 <= i < cl.len() implies spec_clean_lines(cl)[i] == cl[i] by {
            assert(spec_clean_lines(cl)[i] == spec_clean_line(cl[i]));
            assert(cl[i] == spec_clean_line(ls0[i]));
            lemma_clean_line_idempotent(ls0[i]);
        }
    }
    // and drops nothing further
    if cl.len() > 0 {
        assert(drop_trailing_blank(cl) == cl);
    } else {
        assert(drop_trailing_blank(cl) == cl);
    }
    assert(spec_cleaned_lines(spec_clean_text(s)) == cl);
}

} // verus!
