//! Text processing for running a command under a terminal that dumps
//! its drawing commands: shell-quoting the command line, filtering noisy
//! diagnostics, and turning a command dump back into visible text.

use vstd::prelude::*;
use crate::text::all_digits;
use crate::text::dec_val;
use crate::text::find_char;
use crate::text::parse_u32_bounded;
use crate::text::is_digit;
use crate::text::spec_parse_uint;
use crate::text::spec_starts_with;
use crate::text::spec_trim;
use crate::text::starts_with;
use crate::text::str_eq;
use crate::text::trim_str;
use crate::text::views_of;
use crate::screen::contains_sub;
use crate::screen::has_substr;

verus! {

/// Whether `c` needs no shell quoting: ASCII alphanumeric, `-`, `_`,
/// `/` or `.`.
pub open spec fn is_plain_char(c: char) -> bool {
    (48 <= c as u32 <= 57) || (65 <= c as u32 <= 90) || (97 <= c as u32 <= 122) || c == '-' || c
        == '_' || c == '/' || c == '.'
}

fn is_plain_char_exec(c: char) -> (r: bool)
    ensures
        r == is_plain_char(c),
{
    let u = c as u32;
    (48 <= u && u <= 57) || (65 <= u && u <= 90) || (97 <= u && u <= 122) || c == '-' || c == '_'
        || c == '/' || c == '.'
}

/// How one character renders inside a single-quoted shell string: a
/// quote closes the string, emits an escaped quote, and reopens it.
pub open spec fn quote_rep(c: char) -> Seq<char> {
    if c == '\'' {
        seq!['\'', '\\', '\'', '\'']
    } else {
        seq![c]
    }
}

/// The body of a single-quoted shell string.
pub open spec fn spec_quote_body(a: Seq<char>) -> Seq<char>
    decreases a.len(),
{
    if a.len() == 0 {
        Seq::empty()
    } else {
        quote_rep(a[0]) + spec_quote_body(a.drop_first())
    }
}

proof fn lemma_quote_body_append(x: Seq<char>, y: Seq<char>)
    ensures
        spec_quote_body(x + y) == spec_quote_body(x) + spec_quote_body(y),
    decreases x.len(),
{
    if x.len() == 0 {
        assert(x + y =~= y);
        assert(spec_quote_body(x) + spec_quote_body(y) =~= spec_quote_body(y));
    } else {
        assert((x + y)[0] == x[0]);
        assert((x + y).drop_first() =~= x.drop_first() + y);
        lemma_quote_body_append(x.drop_first(), y);
        assert(spec_quote_body(x + y) =~= spec_quote_body(x) + spec_quote_body(y));
    }
}

proof fn lemma_quote_body_run(a: Seq<char>, k: int)
    requires
        0 <= k <= a.len(),
        forall|m: int| 0 <= m < k ==> a[m] != '\'',
    ensures
        spec_quote_body(a) == a.subrange(0, k) + spec_quote_body(a.subrange(k, a.len() as int)),
    decreases k,
{
    if k == 0 {
        assert(a.subrange(0, a.len() as int) =~= a);
        assert(a.subrange(0, 0) + spec_quote_body(a) =~= spec_quote_body(a));
    } else {
        let d = a.drop_first();
        assert(forall|m: int| 0 <= m < k - 1 ==> #[trigger] d[m] == a[m + 1]);
        lemma_quote_body_run(d, k - 1);
        assert(quote_rep(a[0]) =~= seq![a[0]]);
        assert(d.subrange(0, k - 1) =~= a.subrange(1, k));
        assert(d.subrange(k - 1, d.len() as int) =~= a.subrange(k, a.len() as int));
        assert(spec_quote_body(a) =~= a.subrange(0, k) + spec_quote_body(
            a.subrange(k, a.len() as int),
        ));
    }
}

/// One argument made safe for a shell command line: unchanged where all
/// its characters are plain, otherwise wrapped in single quotes with
/// embedded quotes escaped.
pub open spec fn spec_escape_arg(a: Seq<char>) -> Seq<char> {
    if forall|m: int| 0 <= m < a.len() ==> is_plain_char(#[trigger] a[m]) {
        a
    } else {
        seq!['\''] + spec_quote_body(a) + seq!['\'']
    }
}

/// A whole argument list rendered as one shell command line, separated
/// by single spaces.
pub open spec fn spec_shell_escape(args: Seq<Seq<char>>) -> Seq<char>
    decreases args.len(),
{
    if args.len() == 0 {
        Seq::empty()
    } else if args.len() == 1 {
        spec_escape_arg(args[0])
    } else {
        spec_shell_escape(args.drop_last()) + seq![' '] + spec_escape_arg(args.last())
    }
}

fn escape_arg(a: &str) -> (r: String)
    ensures
        r@ == spec_escape_arg(a@),
{
    let n = a.unicode_len();
    let mut plain = true;
    let mut i: usize = 0;
    while i < n
        invariant
            0 <= i <= n,
            n == a@.len(),
            plain == (forall|m: int| 0 <= m < i ==> is_plain_char(#[trigger] a@[m])),
        decreases n - i,
    {
        if !is_plain_char_exec(a.get_char(i)) {
            plain = false;
        }
        i += 1;
    }
    if plain {
        return String::from_str(a);
    }
    let mut out = String::from_str("'");
    let mut j: usize = 0;
    proof {
        reveal_strlit("'");
        reveal_strlit("'\\''");
        assert(a@.subrange(0, n as int) =~= a@);
    }
    while j < n
        invariant
            0 <= j <= n,
            n == a@.len(),
            out@ == seq!['\''] + spec_quote_body(a@.subrange(0, j as int)),
        decreases n - j,
    {
        proof {
            reveal_strlit("'\\''");
        }
        let ghost rest = a@.subrange(j as int, n as int);
        let k = find_char(a, j, '\'');
        let ghost run = a@.subrange(j as int, k as int);
        proof {
            crate::text::lemma_first_idx(rest, '\'');
            assert forall|m: int| 0 <= m < run.len() implies run[m] != '\'' by {
                assert(run[m] == rest[m]);
            }
            lemma_quote_body_run(run, run.len() as int);
            assert(run.subrange(0, run.len() as int) =~= run);
            assert(run.subrange(run.len() as int, run.len() as int) =~= Seq::<char>::empty());
            assert(spec_quote_body(run) =~= run);
            assert(a@.subrange(0, j as int) + run =~= a@.subrange(0, k as int));
            lemma_quote_body_append(a@.subrange(0, j as int), run);
        }
        let seg = a.substring_char(j, k);
        out.append(seg);
        proof {
            assert(out@ =~= seq!['\''] + spec_quote_body(a@.subrange(0, k as int)));
        }
        if k < n {
            out.append("'\\''");
            proof {
                assert(a@[k as int] == '\'');
                assert(a@.subrange(0, k as int) + seq![a@[k as int]] =~= a@.subrange(
                    0,
                    k as int + 1,
                ));
                lemma_quote_body_append(a@.subrange(0, k as int), seq![a@[k as int]]);
                assert(seq![a@[k as int]].drop_first() =~= Seq::<char>::empty());
                assert(spec_quote_body(seq![a@[k as int]]) =~= quote_rep('\''));
                assert(quote_rep('\'') =~= "'\\''"@);
                assert(out@ =~= seq!['\''] + spec_quote_body(a@.subrange(0, k as int + 1)));
            }
            j = k + 1;
        } else {
            j = n;
        }
    }
    out.append("'");
    proof {
        reveal_strlit("'");
        assert(a@.subrange(0, n as int) =~= a@);
        assert(out@ =~= seq!['\''] + spec_quote_body(a@) + seq!['\'']);
    }
    out
}

/// Renders command arguments as a single shell-safe command line.
pub fn shell_escape(args: &Vec<String>) -> (r: String)
    ensures
        r@ == spec_shell_escape(views_of(args@)),
{
    let mut out = String::new();
    let mut i: usize = 0;
    proof {
        reveal_strlit(" ");
    }
    while i < args.len()
        invariant
            0 <= i <= args@.len(),
            out@ == spec_shell_escape(views_of(args@).subrange(0, i as int)),
        decreases args@.len() - i,
    {
        let ghost pre = views_of(args@).subrange(0, i as int);
        let ghost post = views_of(args@).subrange(0, i as int + 1);
        proof {
            reveal_strlit(" ");
            assert(post.drop_last() =~= pre);
            assert(post.last() == views_of(args@)[i as int]);
            assert(views_of(args@)[i as int] == args@[i as int]@);
        }
        if i > 0 {
            out.append(" ");
        }
        let e = escape_arg(args[i].as_str());
        out.append(e.as_str());
        proof {
            if i == 0 {
                assert(out@ =~= spec_shell_escape(post));
            } else {
                assert(out@ =~= spec_shell_escape(post));
            }
        }
        i += 1;
    }
    proof {
        assert(views_of(args@).subrange(0, args@.len() as int) =~= views_of(args@));
    }
    out
}

/// Whether a diagnostic line is graphics-stack noise that a test run
/// should hide: it mentions one of the known noisy sources.
pub open spec fn is_stderr_noise(l: Seq<char>) -> bool {
    has_substr(l, "libEGL warning:"@) || has_substr(l, "MESA:"@) || has_substr(
        l,
        "libEGL error:"@,
    ) || has_substr(l, "[glfw error"@) || has_substr(l, "glfw error"@) || has_substr(
        l,
        "process_desktop_settings:"@,
    ) || has_substr(l, "org.freedesktop.DBus.Error"@) || has_substr(
        l,
        "org.freedesktop.portal.Desktop"@,
    ) || has_substr(l, "org.freedesktop.Notifications"@) || has_substr(l, "MESA-LOADER:"@)
        || has_substr(l, "ZINK:"@) || has_substr(l, "egl:"@) || has_substr(l, "dri2 screen"@)
}

/// Decides whether a diagnostic line should be hidden as terminal or
/// graphics-library noise.
pub fn should_filter_stderr(line: &str) -> (r: bool)
    ensures
        r == is_stderr_noise(line@),
{
    contains_sub(line, "libEGL warning:") || contains_sub(
        line,
        "MESA:",
    ) || contains_sub(line, "libEGL error:") || contains_sub(
        line,
        "[glfw error",
    ) || contains_sub(line, "glfw error") || contains_sub(
        line,
        "process_desktop_settings:",
    ) || contains_sub(line, "org.freedesktop.DBus.Error")
        || contains_sub(line, "org.freedesktop.portal.Desktop")
        || contains_sub(line, "org.freedesktop.Notifications")
        || contains_sub(line, "MESA-LOADER:") || contains_sub(
        line,
        "ZINK:",
    ) || contains_sub(line, "egl:") || contains_sub(
        line,
        "dri2 screen",
    )
}

/// Whether a line is blank: its trimmed form is empty.
pub open spec fn line_blank(l: Seq<char>) -> bool {
    spec_trim(l).len() == 0
}

/// The lines with blank runs removed from both ends: everything from
/// the first to the last non-blank line, or nothing where every line is
/// blank.
pub open spec fn spec_trim_blank_lines(ls: Seq<Seq<char>>) -> Seq<Seq<char>> {
    if exists|i: int| 0 <= i < ls.len() && !line_blank(#[trigger] ls[i]) {
        let start = choose|s: int|
            0 <= s < ls.len() && !line_blank(ls[s]) && forall|m: int|
                0 <= m < s ==> line_blank(#[trigger] ls[m]);
        let end = choose|e: int|
            0 <= e < ls.len() && !line_blank(ls[e]) && forall|m: int|
                e < m < ls.len() ==> line_blank(#[trigger] ls[m]);
        ls.subrange(start, end + 1)
    } else {
        Seq::empty()
    }
}

/// Trims blank lines from the beginning and the end of a line list.
pub fn trim_blank_lines(lines: &Vec<String>) -> (r: Vec<String>)
    ensures
        views_of(r@) == spec_trim_blank_lines(views_of(lines@)),
{
    let ghost ls = views_of(lines@);
    let n = lines.len();
    let mut start: usize = 0;
    while start < n && trim_str(lines[start].as_str()).unicode_len() == 0
        invariant
            0 <= start <= n,
            n == lines@.len(),
            ls == views_of(lines@),
            forall|m: int| 0 <= m < start ==> line_blank(#[trigger] ls[m]),
        decreases n - start,
    {
        proof {
            assert(views_of(lines@)[start as int] == lines@[start as int]@);
        }
        start += 1;
    }
    proof {
        if start < n {
            assert(views_of(lines@)[start as int] == lines@[start as int]@);
        }
    }
    if start == n {
        // every line is blank
        let r: Vec<String> = Vec::new();
        proof {
            if exists|i: int| 0 <= i < ls.len() && !line_blank(#[trigger] ls[i]) {
                let i = choose|i: int| 0 <= i < ls.len() && !line_blank(#[trigger] ls[i]);
                assert(line_blank(ls[i]));
            }
            assert(views_of(r@) =~= spec_trim_blank_lines(ls));
        }
        return r;
    }
    let mut end: usize = n;
    while end > start && trim_str(lines[end - 1].as_str()).unicode_len() == 0
        invariant
            start <= end <= n,
            n == lines@.len(),
            ls == views_of(lines@),
            start < n,
            !line_blank(ls[start as int]),
            forall|m: int| end <= m < n ==> line_blank(#[trigger] ls[m]),
        decreases end,
    {
        proof {
            assert(views_of(lines@)[end - 1] == lines@[end - 1]@);
        }
        end -= 1;
    }
    proof {
        assert(end > start);
        assert(views_of(lines@)[end - 1] == lines@[end - 1]@);
        assert(!line_blank(ls[end - 1]));
    }
    let mut out: Vec<String> = Vec::new();
    let mut i: usize = start;
    while i < end
        invariant
            start <= i <= end <= n,
            n == lines@.len(),
            ls == views_of(lines@),
            views_of(out@) == ls.subrange(start as int, i as int),
        decreases end - i,
    {
        proof {
            assert(views_of(lines@)[i as int] == lines@[i as int]@);
        }
        let ghost prev = out@;
        out.push(lines[i].clone());
        proof {
            assert(views_of(out@) =~= views_of(prev).push(ls[i as int]));
            assert(views_of(out@) =~= ls.subrange(start as int, i as int + 1));
        }
        i += 1;
    }
    proof {
        let s0 = choose|s: int|
            0 <= s < ls.len() && !line_blank(ls[s]) && forall|m: int|
                0 <= m < s ==> line_blank(#[trigger] ls[m]);
        let e0 = choose|e: int|
            0 <= e < ls.len() && !line_blank(ls[e]) && forall|m: int|
                e < m < ls.len() ==> line_blank(#[trigger] ls[m]);
        assert(0 <= s0 < ls.len() && !line_blank(ls[s0]) && forall|m: int|
            0 <= m < s0 ==> line_blank(#[trigger] ls[m])) by {
            assert(!line_blank(ls[start as int]) && forall|m: int|
                0 <= m < start ==> line_blank(#[trigger] ls[m]));
        }
        assert(s0 == start) by {
            if s0 < start {
                assert(line_blank(ls[s0]));
            }
            if start < s0 {
                assert(line_blank(ls[start as int]));
            }
        }
        assert(0 <= e0 < ls.len() && !line_blank(ls[e0]) && forall|m: int|
            e0 < m < ls.len() ==> line_blank(#[trigger] ls[m])) by {
            assert(!line_blank(ls[end - 1]) && forall|m: int|
                end - 1 < m < ls.len() ==> line_blank(#[trigger] ls[m]));
        }
        assert(e0 == end - 1) by {
            if e0 < end - 1 {
                assert(line_blank(ls[end - 1]));
            }
            if end - 1 < e0 {
                assert(line_blank(ls[e0]));
            }
        }
        assert(views_of(out@) =~= spec_trim_blank_lines(ls));
    }
    out
}

/// The result of parsing a signed 32-bit decimal integer, as Rust's
/// `parse` reads it: an optional sign, then digits, rejected outside the
/// value range.
pub open spec fn spec_parse_i32(s: Seq<char>) -> Option<i32> {
    if s.len() > 0 && s[0] == '-' {
        let t = s.drop_first();
        if all_digits(t) && dec_val(t) <= 0x8000_0000 {
            Some((0 - dec_val(t)) as i32)
        } else {
            None
        }
    } else {
        match spec_parse_uint(s, 0x7fff_ffff) {
            Some(v) => Some(v as i32),
            None => None,
        }
    }
}

fn parse_i32(s: &str) -> (r: Option<i32>)
    ensures
        r == spec_parse_i32(s@),
{
    let n = s.unicode_len();
    if n > 0 && s.get_char(0) == '-' {
        let rest = s.substring_char(1, n);
        proof {
            assert(rest@ =~= s@.drop_first());
        }
        if rest.unicode_len() > 0 && rest.get_char(0) == '+' {
            proof {
                assert(!is_digit(rest@[0]));
                assert(!all_digits(rest@));
            }
            return None;
        }
        match parse_u32_bounded(rest, 0x8000_0000) {
            Some(v) => {
                if v == 0x8000_0000 {
                    Some(i32::MIN)
                } else {
                    Some(0 - (v as i32))
                }
            },
            None => None,
        }
    } else {
        match parse_u32_bounded(s, 0x7fff_ffff) {
            Some(v) => Some(v as i32),
            None => None,
        }
    }
}

/// One step of reading a terminal command dump: a `draw` command either
/// carries the exit-code marker or appends visible text, a line feed
/// command appends a newline, and every other command is ignored.
pub open spec fn spec_dump_step(st: (Seq<char>, Option<i32>), line: Seq<char>) -> (
    Seq<char>,
    Option<i32>,
) {
    if spec_starts_with(line, "draw "@) {
        let t = line.subrange("draw "@.len() as int, line.len() as int);
        if spec_starts_with(t, "KITTY_RUNNER_EXIT_CODE:"@) {
            (st.0, spec_parse_i32(t.subrange("KITTY_RUNNER_EXIT_CODE:"@.len() as int, t.len() as int)))
        } else {
            (st.0 + t, st.1)
        }
    } else if line == "screen_linefeed"@ {
        (st.0.push('\n'), st.1)
    } else {
        st
    }
}

/// The visible text and reported exit code of a whole command dump.
pub open spec fn spec_render_dump(lines: Seq<Seq<char>>) -> (Seq<char>, Option<i32>)
    decreases lines.len(),
{
    if lines.len() == 0 {
        (Seq::empty(), None::<i32>)
    } else {
        spec_dump_step(spec_render_dump(lines.drop_last()), lines.last())
    }
}

/// Reads a terminal command dump: collects the drawn text, translating
/// line feed commands into newlines, and picks up the exit code named by
/// the marker line.
pub fn render_dump(lines: &Vec<String>) -> (r: (String, Option<i32>))
    ensures
        (r.0@, r.1) == spec_render_dump(views_of(lines@)),
{
    let ghost ls = views_of(lines@);
    let mut out = String::new();
    let mut code: Option<i32> = None;
    let mut i: usize = 0;
    proof {
        assert(ls.subrange(0, 0) =~= Seq::<Seq<char>>::empty());
    }
    while i < lines.len()
        invariant
            0 <= i <= lines@.len(),
            ls == views_of(lines@),
            (out@, code) == spec_render_dump(ls.subrange(0, i as int)),
        decreases lines@.len() - i,
    {
        let ghost pre = ls.subrange(0, i as int);
        let ghost post = ls.subrange(0, i as int + 1);
        proof {
            reveal_strlit("draw ");
            reveal_strlit("KITTY_RUNNER_EXIT_CODE:");
            reveal_strlit("screen_linefeed");
            reveal_strlit("\n");
            assert(post.drop_last() =~= pre);
            assert(post.last() == ls[i as int]);
            assert(views_of(lines@)[i as int] == lines@[i as int]@);
        }
        let line = lines[i].as_str();
        if starts_with(line, "draw ") {
            let n = line.unicode_len();
            let t = line.substring_char(5, n);
            proof {
                assert(t@ =~= ls[i as int].subrange("draw "@.len() as int, ls[i as int].len() as int));
            }
            if starts_with(t, "KITTY_RUNNER_EXIT_CODE:") {
                let m = t.unicode_len();
                let cs = t.substring_char(23, m);
                proof {
                    assert(cs@ =~= t@.subrange("KITTY_RUNNER_EXIT_CODE:"@.len() as int, t@.len() as int));
                }
                code = parse_i32(cs);
            } else {
                out.append(t);
            }
        } else if str_eq(line, "screen_linefeed") {
            out.append("\n");
            proof {
                assert(out@ =~= spec_render_dump(post).0);
            }
        }
        proof {
            assert((out@, code) =~~= spec_render_dump(post));
        }
        i += 1;
    }
    proof {
        assert(ls.subrange(0, lines@.len() as int) =~= ls);
    }
    (out, code)
}

} // verus!
