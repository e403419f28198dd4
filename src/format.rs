//! Positional placeholder substitution for translated patterns.
//!
//! A pattern is literal text with placeholders `{}` (the next implicit index)
//! and `{n}` (an explicit index). There is no escape for literal braces.

use vstd::prelude::*;

verus! {

/// Why a pattern could not be formatted.
#[derive(Debug, Clone, Copy, PartialEq, Eq, Structural)]
pub enum FormatError {
    /// A `{` without its `}`, a `{` inside a placeholder, or a stray `}`.
    UnmatchedDelimiter,
    /// A placeholder body that is not a decimal index fitting in `usize`.
    InvalidPositionalArgument,
    /// A placeholder index with no argument at that position.
    MissingArgument(usize),
}

pub open spec fn is_delim(c: char) -> bool {
    c == '{' || c == '}'
}

pub open spec fn is_digit(c: char) -> bool {
    '0' <= c && c <= '9'
}

pub open spec fn digit_value(c: char) -> nat {
    ((c as u32) - ('0' as u32)) as nat
}

pub open spec fn all_digits(s: Seq<char>) -> bool {
    forall|k: int| 0 <= k < s.len() ==> is_digit(#[trigger] s[k])
}

/// The number that a string of decimal digits denotes.
pub open spec fn digits_value(s: Seq<char>) -> nat
    decreases s.len(),
{
    if s.len() == 0 {
        0
    } else {
        digits_value(s.drop_last()) * 10 + digit_value(s.last())
    }
}

/// Length of the longest prefix of `p` that holds no brace.
pub open spec fn run_len(p: Seq<char>) -> nat
    decreases p.len(),
{
    if p.len() == 0 || is_delim(p[0]) {
        0
    } else {
        1 + run_len(p.drop_first())
    }
}

/// A placeholder body names an explicit index.
pub open spec fn valid_index(body: Seq<char>) -> bool {
    all_digits(body) && digits_value(body) <= usize::MAX
}

pub open spec fn prepend(s: Seq<char>, r: Result<Seq<char>, FormatError>) -> Result<
    Seq<char>,
    FormatError,
> {
    match r {
        Ok(t) => Ok(s + t),
        Err(e) => Err(e),
    }
}

/// The result of formatting `p` against `args`, where the next implicit
/// placeholder takes index `next`. One left-to-right pass: the first fault
/// met decides the error.
pub open spec fn format_from(p: Seq<char>, args: Seq<Seq<char>>, next: nat) -> Result<
    Seq<char>,
    FormatError,
>
    decreases p.len(),
{
    if p.len() == 0 {
        Ok(Seq::empty())
    } else if p[0] == '}' {
        Err(FormatError::UnmatchedDelimiter)
    } else if p[0] == '{' {
        let body = p.subrange(1, 1 + run_len(p.drop_first()) as int);
        let close: int = 1 + body.len() as int;
        if close >= p.len() || p[close] == '{' {
            Err(FormatError::UnmatchedDelimiter)
        } else if body.len() > 0 && !valid_index(body) {
            Err(FormatError::InvalidPositionalArgument)
        } else {
            let idx = if body.len() == 0 {
                next
            } else {
                digits_value(body)
            };
            let next2 = if body.len() == 0 {
                next + 1
            } else {
                next
            };
            if idx >= args.len() {
                Err(FormatError::MissingArgument(idx as usize))
            } else {
                prepend(args[idx as int], format_from(p.subrange(close + 1, p.len() as int), args, next2))
            }
        }
    } else {
        prepend(seq![p[0]], format_from(p.drop_first(), args, next))
    }
}

/// What formatting `pattern` with `args` gives.
pub open spec fn format_pattern(pattern: Seq<char>, args: Seq<Seq<char>>) -> Result<
    Seq<char>,
    FormatError,
> {
    format_from(pattern, args, 0)
}

pub open spec fn arg_views(args: Seq<String>) -> Seq<Seq<char>> {
    args.map_values(|a: String| a@)
}

pub open spec fn result_view(r: Result<String, FormatError>) -> Result<Seq<char>, FormatError> {
    match r {
        Ok(s) => Ok(s@),
        Err(e) => Err(e),
    }
}

proof fn lemma_run_len(q: Seq<char>, m: nat)
    requires
        m <= q.len(),
        forall|k: int| 0 <= k < m ==> !is_delim(#[trigger] q[k]),
        m == q.len() || is_delim(q[m as int]),
    ensures
        run_len(q) == m,
    decreases m,
{
    if m > 0 {
        lemma_run_len(q.drop_first(), (m - 1) as nat);
    }
}

/// Literal text with no brace is copied as it stands.
proof fn lemma_literal_run(p: Seq<char>, m: nat, args: Seq<Seq<char>>, next: nat)
    requires
        m <= p.len(),
        forall|k: int| 0 <= k < m ==> !is_delim(#[trigger] p[k]),
    ensures
        format_from(p, args, next) == prepend(
            p.subrange(0, m as int),
            format_from(p.subrange(m as int, p.len() as int), args, next),
        ),
    decreases m,
{
    if m == 0 {
        assert(p.subrange(0, p.len() as int) =~= p);
        match format_from(p, args, next) {
            Ok(t) => assert(Seq::<char>::empty() + t =~= t),
            Err(_) => {},
        }
    } else {
        let q = p.drop_first();
        lemma_literal_run(q, (m - 1) as nat, args, next);
        assert(q.subrange((m - 1) as int, q.len() as int) =~= p.subrange(m as int, p.len() as int));
        match format_from(p.subrange(m as int, p.len() as int), args, next) {
            Ok(t) => {
                assert(seq![p[0]] + (q.subrange(0, (m - 1) as int) + t) =~= p.subrange(0, m as int)
                    + t);
            },
            Err(_) => {},
        }
    }
}

proof fn lemma_digits_prefix_le(s: Seq<char>, k: nat)
    requires
        k <= s.len(),
    ensures
        digits_value(s.subrange(0, k as int)) <= digits_value(s),
    decreases s.len(),
{
    if k < s.len() {
        lemma_digits_prefix_le(s.drop_last(), k);
        assert(s.drop_last().subrange(0, k as int) =~= s.subrange(0, k as int));
    } else {
        assert(s.subrange(0, k as int) =~= s);
    }
}

/// Reads the decimal index held in `pattern[start..end]`.
fn parse_index(pattern: &str, start: usize, end: usize) -> (r: Option<usize>)
    requires
        start <= end <= pattern@.len(),
    ensures
        r is Some <==> valid_index(pattern@.subrange(start as int, end as int)),
        r is Some ==> r->0 == digits_value(pattern@.subrange(start as int, end as int)),
{
    let ghost body = pattern@.subrange(start as int, end as int);
    let mut value: usize = 0;
    let mut j: usize = start;
    while j < end
        invariant
            start <= j <= end <= pattern@.len(),
            body == pattern@.subrange(start as int, end as int),
            all_digits(pattern@.subrange(start as int, j as int)),
            value == digits_value(pattern@.subrange(start as int, j as int)),
        decreases end - j,
    {
        let c = pattern.get_char(j);
        let ghost pre = pattern@.subrange(start as int, j as int);
        let ghost ext = pattern@.subrange(start as int, j + 1);
        assert(ext.drop_last() =~= pre);
        assert(ext.last() == c);
        if !('0' <= c && c <= '9') {
            assert(body[j - start] == c);
            return None;
        }
        assert(digits_value(ext) == value * 10 + digit_value(c));
        proof {
            assert(body.subrange(0, j + 1 - start) =~= ext);
            lemma_digits_prefix_le(body, (j + 1 - start) as nat);
        }
        let d = (c as u32 - '0' as u32) as usize;
        match value.checked_mul(10) {
            Some(s) => match s.checked_add(d) {
                Some(v) => {
                    value = v;
                },
                None => {
                    return None;
                },
            },
            None => {
                return None;
            },
        }
        j = j + 1;
        assert(all_digits(pattern@.subrange(start as int, j as int)));
    }
    assert(pattern@.subrange(start as int, j as int) =~= body);
    Some(value)
}

proof fn lemma_prepend_assoc(a: Seq<char>, b: Seq<char>, r: Result<Seq<char>, FormatError>)
    ensures
        prepend(a, prepend(b, r)) == prepend(a + b, r),
{
    match r {
        Ok(t) => assert(a + (b + t) =~= (a + b) + t),
        Err(_) => {},
    }
}

/// Index of the first brace in `pattern` at or after `from`, or its length.
fn scan_run(pattern: &str, n: usize, from: usize) -> (j: usize)
    requires
        n == pattern@.len(),
        from <= n,
    ensures
        from <= j <= n,
        forall|k: int| from <= k < j ==> !is_delim(#[trigger] pattern@[k]),
        j == n || is_delim(pattern@[j as int]),
{
    let mut j = from;
    while j < n
        invariant
            from <= j <= n,
            n == pattern@.len(),
            forall|k: int| from <= k < j ==> !is_delim(#[trigger] pattern@[k]),
        decreases n - j,
    {
        let c = pattern.get_char(j);
        if c == '{' || c == '}' {
            return j;
        }
        j = j + 1;
    }
    j
}

/// Substitutes `argv` into the placeholders of `pattern`.
///
/// `{}` takes the next implicit index (0, 1, ... counted over implicit
/// placeholders only) and `{n}` takes index `n`; text between placeholders
/// is copied as it stands.
pub fn try_format(pattern: &str, argv: &[String]) -> (r: Result<String, FormatError>)
    ensures
        result_view(r) == format_pattern(pattern@, arg_views(argv@)),
{
    let ghost p = pattern@;
    let ghost args = arg_views(argv@);
    let n = pattern.unicode_len();
    let mut res = String::new();
    let mut i: usize = 0;
    let mut next: usize = 0;
    assert(p.subrange(0, n as int) =~= p);
    assert(prepend(res@, format_from(p, args, 0)) == format_from(p, args, 0)) by {
        lemma_prepend_assoc(Seq::empty(), Seq::empty(), format_from(p, args, 0));
        assert(Seq::<char>::empty() + Seq::<char>::empty() =~= Seq::<char>::empty());
        match format_from(p, args, 0) {
            Ok(t) => assert(Seq::<char>::empty() + t =~= t),
            Err(_) => {},
        }
    }
    while i < n
        invariant
            p == pattern@,
            n == p.len(),
            args == arg_views(argv@),
            i <= n,
            next <= i,
            format_pattern(p, args) == prepend(
                res@,
                format_from(p.subrange(i as int, n as int), args, next as nat),
            ),
        decreases n - i,
    {
        let ghost q = p.subrange(i as int, n as int);
        let c = pattern.get_char(i);
        if c == '}' {
            return Err(FormatError::UnmatchedDelimiter);
        } else if c == '{' {
            let j = scan_run(pattern, n, i + 1);
            proof {
                lemma_run_len(q.drop_first(), (j - i - 1) as nat);
                assert(q.subrange(1, (j - i) as int) =~= p.subrange(i + 1, j as int));
            }
            if j >= n || pattern.get_char(j) == '{' {
                return Err(FormatError::UnmatchedDelimiter);
            }
            let idx: usize;
            if j == i + 1 {
                idx = next;
                next = next + 1;
            } else {
                match parse_index(pattern, i + 1, j) {
                    Some(v) => {
                        idx = v;
                    },
                    None => {
                        return Err(FormatError::InvalidPositionalArgument);
                    },
                }
            }
            if idx >= argv.len() {
                return Err(FormatError::MissingArgument(idx));
            }
            let ghost before = res@;
            res.append(argv[idx].as_str());
            proof {
                assert(q.subrange((j - i + 1) as int, q.len() as int) =~= p.subrange(
                    j + 1,
                    n as int,
                ));
                lemma_prepend_assoc(
                    before,
                    args[idx as int],
                    format_from(p.subrange(j + 1, n as int), args, next as nat),
                );
            }
            i = j + 1;
        } else {
            let j = scan_run(pattern, n, i);
            let ghost m = (j - i) as nat;
            proof {
                lemma_literal_run(q, m, args, next as nat);
                assert(q.subrange(0, m as int) =~= p.subrange(i as int, j as int));
                assert(q.subrange(m as int, q.len() as int) =~= p.subrange(j as int, n as int));
                lemma_prepend_assoc(
                    res@,
                    p.subrange(i as int, j as int),
                    format_from(p.subrange(j as int, n as int), args, next as nat),
                );
            }
            res.append(pattern.substring_char(i, j));
            i = j;
        }
    }
    proof {
        match format_from(p.subrange(i as int, n as int), args, next as nat) {
            Ok(t) => assert(res@ + t =~= res@),
            Err(_) => {},
        }
    }
    Ok(res)
}

} // verus!
