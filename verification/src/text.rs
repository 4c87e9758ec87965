//! Shared text primitives: whitespace classification and decimal rendering.

use vstd::prelude::*;

verus! {

/// Whitespace as this crate understands it: the ASCII whitespace
/// characters, deliberately. Trimming and blank-line tests throughout
/// the engine use this set, so a line of non-ASCII spacing characters
/// (such as a no-break space) is not blank here.
pub open spec fn is_ws_char(c: char) -> bool {
    c == ' ' || c == '\t' || c == '\n' || c == '\r' || c == '\x0b' || c == '\x0c'
}

/// Executable counterpart of [`is_ws_char`].
pub fn is_space(c: char) -> (r: bool)
    ensures
        r == is_ws_char(c),
{
    c == ' ' || c == '\t' || c == '\n' || c == '\r' || c == '\x0b' || c == '\x0c'
}

/// The character for a single decimal digit.
pub open spec fn digit_char(d: nat) -> char {
    if d == 0 {
        '0'
    } else if d == 1 {
        '1'
    } else if d == 2 {
        '2'
    } else if d == 3 {
        '3'
    } else if d == 4 {
        '4'
    } else if d == 5 {
        '5'
    } else if d == 6 {
        '6'
    } else if d == 7 {
        '7'
    } else if d == 8 {
        '8'
    } else {
        '9'
    }
}

/// Decimal rendering of a natural number, most significant digit first,
/// without leading zeros (except for the number zero itself).
pub open spec fn dec_digits(n: nat) -> Seq<char>
    decreases n,
{
    if n < 10 {
        seq![digit_char(n)]
    } else {
        dec_digits(n / 10).push(digit_char(n % 10))
    }
}

fn digit_str(d: u32) -> (r: &'static str)
    requires
        d < 10,
    ensures
        r@ == seq![digit_char(d as nat)],
{
    let s: &'static str = match d {
        0 => "0",
        1 => "1",
        2 => "2",
        3 => "3",
        4 => "4",
        5 => "5",
        6 => "6",
        7 => "7",
        8 => "8",
        _ => "9",
    };
    proof {
        reveal_strlit("0");
        reveal_strlit("1");
        reveal_strlit("2");
        reveal_strlit("3");
        reveal_strlit("4");
        reveal_strlit("5");
        reveal_strlit("6");
        reveal_strlit("7");
        reveal_strlit("8");
        reveal_strlit("9");
        assert(s@ =~= seq![digit_char(d as nat)]);
    }
    s
}

/// Renders `n` in decimal.
pub fn u32_to_dec(n: u32) -> (r: String)
    ensures
        r@ == dec_digits(n as nat),
    decreases n,
{
    if n < 10 {
        String::from_str(digit_str(n))
    } else {
        let mut s = u32_to_dec(n / 10);
        s.append(digit_str(n % 10));
        proof {
            assert(s@ =~= dec_digits(n as nat));
        }
        s
    }
}

/// The views of a sequence of owned strings.
pub open spec fn views_of(v: Seq<String>) -> Seq<Seq<char>> {
    v.map_values(|x: String| x@)
}

/// Index of the first character of `s` that is not whitespace, or `s.len()`.
pub open spec fn first_non_ws(s: Seq<char>) -> int
    decreases s.len(),
{
    if s.len() == 0 {
        0
    } else if !is_ws_char(s[0]) {
        0
    } else {
        1 + first_non_ws(s.drop_first())
    }
}

/// Index one past the last character of `s` that is not whitespace, or 0.
pub open spec fn last_non_ws_end(s: Seq<char>) -> int
    decreases s.len(),
{
    if s.len() == 0 {
        0
    } else if !is_ws_char(s.last()) {
        s.len() as int
    } else {
        last_non_ws_end(s.drop_last())
    }
}

pub proof fn lemma_first_non_ws(s: Seq<char>)
    ensures
        0 <= first_non_ws(s) <= s.len(),
        forall|k: int| 0 <= k < first_non_ws(s) ==> is_ws_char(s[k]),
        first_non_ws(s) < s.len() ==> !is_ws_char(s[first_non_ws(s)]),
    decreases s.len(),
{
    if s.len() > 0 && is_ws_char(s[0]) {
        lemma_first_non_ws(s.drop_first());
        assert forall|k: int| 0 <= k < first_non_ws(s) implies is_ws_char(s[k]) by {
            if k > 0 {
                assert(s.drop_first()[k - 1] == s[k]);
            }
        }
    }
}

pub proof fn lemma_last_non_ws_end(s: Seq<char>)
    ensures
        0 <= last_non_ws_end(s) <= s.len(),
        forall|k: int| last_non_ws_end(s) <= k < s.len() ==> is_ws_char(s[k]),
        last_non_ws_end(s) > 0 ==> !is_ws_char(s[last_non_ws_end(s) - 1]),
    decreases s.len(),
{
    if s.len() > 0 && is_ws_char(s.last()) {
        lemma_last_non_ws_end(s.drop_last());
        assert forall|k: int| last_non_ws_end(s) <= k < s.len() implies is_ws_char(s[k]) by {
            if k < s.len() - 1 {
                assert(s.drop_last()[k] == s[k]);
            }
        }
    }
}

/// `s` with leading and trailing whitespace removed.
pub open spec fn spec_trim(s: Seq<char>) -> Seq<char> {
    if first_non_ws(s) == s.len() {
        Seq::empty()
    } else {
        s.subrange(first_non_ws(s), last_non_ws_end(s))
    }
}

/// `s` with trailing whitespace removed.
pub open spec fn spec_trim_end(s: Seq<char>) -> Seq<char> {
    s.subrange(0, last_non_ws_end(s))
}

/// Removes leading and trailing whitespace, as [`is_ws_char`] classifies it.
pub fn trim_str(s: &str) -> (r: &str)
    ensures
        r@ == spec_trim(s@),
{
    proof {
        lemma_first_non_ws(s@);
        lemma_last_non_ws_end(s@);
    }
    let n = s.unicode_len();
    let mut a: usize = 0;
    while a < n && is_space(s.get_char(a))
        invariant
            0 <= a <= n,
            n == s@.len(),
            forall|k: int| 0 <= k < a ==> is_ws_char(s@[k]),
        decreases n - a,
    {
        a += 1;
    }
    proof {
        assert(a as int == first_non_ws(s@)) by {
            lemma_first_non_ws(s@);
            lemma_non_ws_bound_unique(s@, a as int);
        }
    }
    if a == n {
        let r = s.substring_char(0, 0);
        proof {
            assert(r@ =~= spec_trim(s@));
        }
        r
    } else {
        let mut b: usize = n;
        while b > a && is_space(s.get_char(b - 1))
            invariant
                a <= b <= n,
                n == s@.len(),
                a < n,
                forall|k: int| b <= k < n ==> is_ws_char(s@[k]),
            decreases b,
        {
            b -= 1;
        }
        proof {
            assert(!is_ws_char(s@[a as int]));
            assert(b > a);
            assert(b as int == last_non_ws_end(s@)) by {
                lemma_last_non_ws_end(s@);
                lemma_ws_tail_unique(s@, b as int);
            }
        }
        s.substring_char(a, b)
    }
}

proof fn lemma_non_ws_bound_unique(s: Seq<char>, m: int)
    requires
        0 <= m <= s.len(),
        forall|k: int| 0 <= k < m ==> is_ws_char(s[k]),
        m < s.len() ==> !is_ws_char(s[m]),
    ensures
        first_non_ws(s) == m,
{
    lemma_first_non_ws(s);
    if first_non_ws(s) < m {
        assert(is_ws_char(s[first_non_ws(s)]));
    }
    if m < first_non_ws(s) {
        assert(is_ws_char(s[m]));
    }
}

proof fn lemma_ws_tail_unique(s: Seq<char>, m: int)
    requires
        0 <= m <= s.len(),
        forall|k: int| m <= k < s.len() ==> is_ws_char(s[k]),
        m > 0 ==> !is_ws_char(s[m - 1]),
    ensures
        last_non_ws_end(s) == m,
{
    lemma_last_non_ws_end(s);
    if last_non_ws_end(s) < m {
        assert(is_ws_char(s[m - 1]));
    }
    if m < last_non_ws_end(s) {
        assert(is_ws_char(s[last_non_ws_end(s) - 1]));
    }
}

/// Whether `p` is a prefix of `s`.
pub open spec fn spec_starts_with(s: Seq<char>, p: Seq<char>) -> bool {
    s.len() >= p.len() && s.subrange(0, p.len() as int) == p
}

/// Whether `s` starts with `p`.
pub fn starts_with(s: &str, p: &str) -> (r: bool)
    ensures
        r == spec_starts_with(s@, p@),
{
    let n = s.unicode_len();
    let m = p.unicode_len();
    if n < m {
        return false;
    }
    let mut i: usize = 0;
    while i < m
        invariant
            0 <= i <= m,
            m <= n,
            n == s@.len(),
            m == p@.len(),
            forall|k: int| 0 <= k < i ==> s@[k] == p@[k],
        decreases m - i,
    {
        if s.get_char(i) != p.get_char(i) {
            proof {
                assert(s@.subrange(0, m as int)[i as int] != p@[i as int]);
            }
            return false;
        }
        i += 1;
    }
    proof {
        assert(s@.subrange(0, m as int) =~= p@);
    }
    true
}

/// Whether `c` is an ASCII decimal digit.
pub open spec fn is_digit(c: char) -> bool {
    48 <= c as u32 <= 57
}

/// The value of an ASCII decimal digit.
pub open spec fn digit_val(c: char) -> nat {
    (c as u32 - 48) as nat
}

/// The value of a digit string, most significant digit first.
pub open spec fn dec_val(s: Seq<char>) -> nat
    decreases s.len(),
{
    if s.len() == 0 {
        0
    } else {
        dec_val(s.drop_last()) * 10 + digit_val(s.last())
    }
}

/// Whether `s` is a non-empty run of ASCII decimal digits.
pub open spec fn all_digits(s: Seq<char>) -> bool {
    s.len() > 0 && forall|k: int| 0 <= k < s.len() ==> is_digit(s[k])
}

/// The result of parsing `s` as an unsigned decimal integer bounded by
/// `max`: an optional leading `+`, then one or more digits, whose value
/// must not exceed `max`. This mirrors how Rust's unsigned `parse` treats
/// its input, with out-of-range values rejected.
pub open spec fn spec_parse_uint(s: Seq<char>, max: nat) -> Option<nat> {
    let t = if s.len() > 0 && s[0] == '+' {
        s.drop_first()
    } else {
        s
    };
    if all_digits(t) && dec_val(t) <= max {
        Some(dec_val(t))
    } else {
        None
    }
}

proof fn lemma_dec_val_append_digit(s: Seq<char>, c: char)
    ensures
        dec_val(s.push(c)) == dec_val(s) * 10 + digit_val(c),
{
    assert(s.push(c).drop_last() =~= s);
    assert(s.push(c).last() == c);
}

/// Parses an unsigned decimal integer no greater than `max`.
pub fn parse_u32_bounded(s: &str, max: u32) -> (r: Option<u32>)
    ensures
        r matches Some(v) ==> spec_parse_uint(s@, max as nat) == Some(v as nat),
        r is None ==> spec_parse_uint(s@, max as nat) is None,
{
    let n = s.unicode_len();
    let start: usize = if n > 0 && s.get_char(0) == '+' {
        1
    } else {
        0
    };
    let ghost t = if s@.len() > 0 && s@[0] == '+' {
        s@.drop_first()
    } else {
        s@
    };
    proof {
        assert(t =~= s@.subrange(start as int, n as int));
    }
    if start == n {
        return None;
    }
    // acc tracks the running value, clamped just above max once it is
    // known to overflow (the clamp keeps the accumulator in range while
    // the remaining characters are still checked for being digits).
    let mut acc: u64 = 0;
    let mut i: usize = start;
    while i < n
        invariant
            start <= i <= n,
            n == s@.len(),
            start as int == (if s@.len() > 0 && s@[0] == '+' {
                1int
            } else {
                0int
            }),
            t == s@.subrange(start as int, n as int),
            forall|k: int| start <= k < i ==> is_digit(s@[k]),
            acc <= max as u64 + 1,
            (acc <= max as u64) ==> acc as nat == dec_val(s@.subrange(start as int, i as int)),
            (acc > max as u64) ==> dec_val(s@.subrange(start as int, i as int)) > max as nat,
        decreases n - i,
    {
        let c = s.get_char(i);
        let cu = c as u32;
        if cu < 48 || cu > 57 {
            proof {
                let t2 = if s@.len() > 0 && s@[0] == '+' {
                    s@.drop_first()
                } else {
                    s@
                };
                assert(t2 =~= t);
                assert(t[i - start] == s@[i as int]);
                assert(!is_digit(t[i - start]));
                assert(!all_digits(t));
            }
            return None;
        }
        let d = (cu - 48) as u64;
        let ghost pre = s@.subrange(start as int, i as int);
        let ghost post = s@.subrange(start as int, i as int + 1);
        proof {
            assert(post =~= pre.push(s@[i as int]));
            lemma_dec_val_append_digit(pre, s@[i as int]);
        }
        if acc > max as u64 {
            // already over: value keeps growing with further digits
            proof {
                assert(dec_val(pre) * 10 >= dec_val(pre)) by (nonlinear_arith)
                    requires
                        dec_val(pre) >= 0,
                ;
            }
        } else {
            acc = acc * 10 + d;
            if acc > max as u64 {
                acc = max as u64 + 1;
            }
        }
        i += 1;
    }
    proof {
        assert(s@.subrange(start as int, n as int) =~= t);
        assert(all_digits(t));
    }
    if acc > max as u64 {
        None
    } else {
        Some(acc as u32)
    }
}

/// Index of the first occurrence of `c` in `s`, or `s.len()`.
pub open spec fn first_idx(s: Seq<char>, c: char) -> int
    decreases s.len(),
{
    if s.len() == 0 {
        0
    } else if s[0] == c {
        0
    } else {
        1 + first_idx(s.drop_first(), c)
    }
}

pub proof fn lemma_first_idx(s: Seq<char>, c: char)
    ensures
        0 <= first_idx(s, c) <= s.len(),
        forall|k: int| 0 <= k < first_idx(s, c) ==> s[k] != c,
        first_idx(s, c) < s.len() ==> s[first_idx(s, c)] == c,
    decreases s.len(),
{
    if s.len() > 0 && s[0] != c {
        lemma_first_idx(s.drop_first(), c);
        assert forall|k: int| 0 <= k < first_idx(s, c) implies s[k] != c by {
            if k > 0 {
                assert(s.drop_first()[k - 1] == s[k]);
            }
        }
    }
}

pub proof fn lemma_first_idx_unique(s: Seq<char>, c: char, m: int)
    requires
        0 <= m <= s.len(),
        forall|k: int| 0 <= k < m ==> s[k] != c,
        m < s.len() ==> s[m] == c,
    ensures
        first_idx(s, c) == m,
{
    lemma_first_idx(s, c);
    if first_idx(s, c) < m {
        assert(s[first_idx(s, c)] == c);
    }
    if m < first_idx(s, c) {
        assert(s[m] != c);
    }
}

/// A line-terminator-stripped segment: one trailing carriage return is
/// removed, matching how a `\r\n` ending is treated.
pub open spec fn strip_cr(l: Seq<char>) -> Seq<char> {
    if l.len() > 0 && l.last() == '\r' {
        l.drop_last()
    } else {
        l
    }
}

/// Splits text into lines: segments end at `\n` (a `\r` directly before
/// the `\n` belongs to the terminator), and a final terminator does not
/// open an empty last line.
pub open spec fn spec_split_lines(s: Seq<char>) -> Seq<Seq<char>>
    decreases s.len(),
    via spec_split_lines_decreases
{
    if s.len() == 0 {
        Seq::empty()
    } else {
        let i = first_idx(s, '\n');
        if i == s.len() {
            seq![s]
        } else {
            seq![strip_cr(s.subrange(0, i))] + spec_split_lines(
                s.subrange(i + 1, s.len() as int),
            )
        }
    }
}

#[via_fn]
proof fn spec_split_lines_decreases(s: Seq<char>) {
    lemma_first_idx(s, '\n');
}

/// Splits `s` into its lines.
pub fn split_lines(s: &str) -> (r: Vec<String>)
    ensures
        views_of(r@) == spec_split_lines(s@),
{
    let n = s.unicode_len();
    let mut out: Vec<String> = Vec::new();
    let mut i: usize = 0;
    proof {
        assert(s@.subrange(0, n as int) =~= s@);
        assert(views_of(out@) + spec_split_lines(s@.subrange(0, n as int)) =~= spec_split_lines(
            s@,
        ));
    }
    while i < n
        invariant
            0 <= i <= n,
            n == s@.len(),
            views_of(out@) + spec_split_lines(s@.subrange(i as int, n as int))
                == spec_split_lines(s@),
        decreases n - i,
    {
        let ghost rest = s@.subrange(i as int, n as int);
        let mut j: usize = i;
        while j < n && s.get_char(j) != '\n'
            invariant
                i <= j <= n,
                n == s@.len(),
                forall|k: int| i <= k < j ==> s@[k] != '\n',
            decreases n - j,
        {
            j += 1;
        }
        proof {
            assert forall|k: int| 0 <= k < j - i implies rest[k] != '\n' by {
                assert(rest[k] == s@[i + k]);
            }
            lemma_first_idx_unique(rest, '\n', j - i);
        }
        if j == n {
            let seg = s.substring_char(i, n);
            let ghost prev = out@;
            out.push(String::from_str(seg));
            proof {
                assert(seg@ =~= rest);
                assert(spec_split_lines(rest) =~= seq![rest]);
                assert(views_of(out@) =~= views_of(prev).push(rest));
                assert(views_of(out@) + spec_split_lines(s@.subrange(n as int, n as int))
                    =~= spec_split_lines(s@));
            }
            i = n;
        } else {
            let seg = if j > i && s.get_char(j - 1) == '\r' {
                s.substring_char(i, j - 1)
            } else {
                s.substring_char(i, j)
            };
            proof {
                assert(rest.subrange(0, (j - i) as int) =~= s@.subrange(i as int, j as int));
                if j > i && s@[j - 1] == '\r' {
                    assert(s@.subrange(i as int, j as int).last() == '\r');
                    assert(seg@ =~= s@.subrange(i as int, j as int).drop_last());
                    assert(seg@ =~= strip_cr(rest.subrange(0, (j - i) as int)));
                } else {
                    assert(seg@ =~= strip_cr(rest.subrange(0, (j - i) as int)));
                }
            }
            let ghost prev = out@;
            out.push(String::from_str(seg));
            proof {
                assert(rest.subrange(j - i + 1, rest.len() as int) =~= s@.subrange(
                    j as int + 1,
                    n as int,
                ));
                assert(spec_split_lines(rest) =~= seq![seg@] + spec_split_lines(
                    s@.subrange(j as int + 1, n as int),
                ));
                assert(views_of(out@) =~= views_of(prev).push(seg@));
                assert(views_of(out@) + spec_split_lines(s@.subrange(j as int + 1, n as int))
                    =~= views_of(prev) + spec_split_lines(rest));
            }
            i = j + 1;
        }
    }
    proof {
        assert(spec_split_lines(s@.subrange(n as int, n as int)) =~= Seq::<Seq<char>>::empty());
        assert(views_of(out@) =~= views_of(out@) + spec_split_lines(
            s@.subrange(n as int, n as int),
        ));
    }
    out
}

/// Index of the first occurrence of `c` in `s` at or after `from`, or
/// `s.len()`.
pub fn find_char(s: &str, from: usize, c: char) -> (r: usize)
    requires
        from <= s@.len(),
    ensures
        from <= r <= s@.len(),
        r - from == first_idx(s@.subrange(from as int, s@.len() as int), c),
{
    let n = s.unicode_len();
    let mut j: usize = from;
    while j < n && s.get_char(j) != c
        invariant
            from <= j <= n,
            n == s@.len(),
            forall|k: int| from <= k < j ==> s@[k] != c,
        decreases n - j,
    {
        j += 1;
    }
    proof {
        let rest = s@.subrange(from as int, s@.len() as int);
        assert forall|k: int| 0 <= k < j - from implies rest[k] != c by {
            assert(rest[k] == s@[from + k]);
        }
        lemma_first_idx_unique(rest, c, j - from);
    }
    j
}

/// Whether two string slices hold the same characters.
pub fn str_eq(a: &str, b: &str) -> (r: bool)
    ensures
        r == (a@ == b@),
{
    let n = a.unicode_len();
    if n != b.unicode_len() {
        return false;
    }
    let mut i: usize = 0;
    while i < n
        invariant
            0 <= i <= n,
            n == a@.len(),
            n == b@.len(),
            forall|k: int| 0 <= k < i ==> a@[k] == b@[k],
        decreases n - i,
    {
        if a.get_char(i) != b.get_char(i) {
            return false;
        }
        i += 1;
    }
    proof {
        assert(a@ =~= b@);
    }
    true
}

} // verus!
