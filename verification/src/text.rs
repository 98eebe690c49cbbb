//! Low-level, verified text scanning over one log line: substring search,
//! whitespace runs, tokens, digit runs and bracketed fields.
use vstd::prelude::*;

verus! {

/// Whitespace inside one log line: a space or a tab.
pub open spec fn is_ws(c: char) -> bool {
    c == ' ' || c == '\t'
}

/// A decimal digit.
pub open spec fn is_digit(c: char) -> bool {
    '0' <= c && c <= '9'
}

/// `pat` occurs in `s` starting at position `i`.
pub open spec fn match_at(s: Seq<char>, pat: Seq<char>, i: int) -> bool {
    0 <= i && i + pat.len() <= s.len() && s.subrange(i, i + pat.len()) == pat
}

/// Position of the first occurrence of `pat` in `s` at or after `from`.
pub open spec fn spec_find(s: Seq<char>, pat: Seq<char>, from: int) -> Option<int>
    decreases s.len() - from + 1,
{
    if from < 0 || from + pat.len() > s.len() {
        None
    } else if match_at(s, pat, from) {
        Some(from)
    } else {
        spec_find(s, pat, from + 1)
    }
}

/// `s` holds `pat` somewhere.
pub open spec fn spec_contains(s: Seq<char>, pat: Seq<char>) -> bool {
    spec_find(s, pat, 0) is Some
}

/// End of the whitespace run that starts at `i`.
pub open spec fn spec_skip_ws(s: Seq<char>, i: int) -> int
    decreases s.len() - i,
{
    if 0 <= i < s.len() && is_ws(s[i]) {
        spec_skip_ws(s, i + 1)
    } else {
        i
    }
}

/// End of the token (maximal run of non-whitespace) that starts at `i`.
pub open spec fn spec_token_end(s: Seq<char>, i: int) -> int
    decreases s.len() - i,
{
    if 0 <= i < s.len() && !is_ws(s[i]) {
        spec_token_end(s, i + 1)
    } else {
        i
    }
}

/// End of the digit run that starts at `i`.
pub open spec fn spec_digits_end(s: Seq<char>, i: int) -> int
    decreases s.len() - i,
{
    if 0 <= i < s.len() && is_digit(s[i]) {
        spec_digits_end(s, i + 1)
    } else {
        i
    }
}

pub proof fn lemma_find_bounds(s: Seq<char>, pat: Seq<char>, from: int)
    requires
        spec_find(s, pat, from) is Some,
    ensures
        from <= spec_find(s, pat, from)->Some_0,
        spec_find(s, pat, from)->Some_0 + pat.len() <= s.len(),
        match_at(s, pat, spec_find(s, pat, from)->Some_0),
    decreases s.len() - from + 1,
{
    if !(from < 0 || from + pat.len() > s.len()) && !match_at(s, pat, from) {
        lemma_find_bounds(s, pat, from + 1);
    }
}

/// `pat` occurs in `cs` at position `i`; `i + pat len` must stay in range.
pub fn match_at_exec(cs: &Vec<char>, pat: &Vec<char>, i: usize) -> (r: bool)
    requires
        i + pat@.len() <= cs@.len(),
    ensures
        r == match_at(cs@, pat@, i as int),
{
    let n = cs.len();
    let m = pat.len();
    let mut j: usize = 0;
    while j < m
        invariant
            j <= m,
            m == pat@.len(),
            n == cs@.len(),
            i + m <= n,
            forall|k: int| 0 <= k < j ==> cs@[i + k] == pat@[k],
        decreases m - j,
    {
        if cs[i + j] != pat[j] {
            proof {
                assert(cs@.subrange(i as int, i + m)[j as int] == cs@[i + j]);
            }
            return false;
        }
        j += 1;
    }
    proof {
        assert(cs@.subrange(i as int, i + m) =~= pat@);
    }
    true
}

/// `pat` occurs in `cs` at position `i` (false when out of range).
pub fn has_at(cs: &Vec<char>, pat: &Vec<char>, i: usize) -> (r: bool)
    requires
        i <= cs@.len(),
    ensures
        r == match_at(cs@, pat@, i as int),
{
    if pat.len() > cs.len() - i {
        return false;
    }
    match_at_exec(cs, pat, i)
}

/// First occurrence of `pat` in `cs` at or after `from`.
pub fn find_from(cs: &Vec<char>, pat: &Vec<char>, from: usize) -> (r: Option<usize>)
    requires
        from <= cs@.len(),
    ensures
        match r {
            Some(i) => spec_find(cs@, pat@, from as int) == Some(i as int),
            None => spec_find(cs@, pat@, from as int) is None,
        },
{
    let n = cs.len();
    let m = pat.len();
    let mut i: usize = from;
    if m == 0 {
        proof {
            assert(cs@.subrange(from as int, from as int) =~= pat@);
        }
        return Some(from);
    }
    if m > n || from > n - m {
        return None;
    }
    let bound = n - m;
    while i <= bound
        invariant
            from <= i <= bound + 1,
            bound == n - m,
            m >= 1,
            n == cs@.len(),
            m == pat@.len(),
            spec_find(cs@, pat@, from as int) == spec_find(cs@, pat@, i as int),
        decreases n - i,
    {
        if match_at_exec(cs, pat, i) {
            return Some(i);
        }
        i += 1;
    }
    None
}

/// `cs` holds `pat` somewhere.
pub fn contains_sub(cs: &Vec<char>, pat: &Vec<char>) -> (r: bool)
    ensures
        r == spec_contains(cs@, pat@),
{
    match find_from(cs, pat, 0) {
        Some(_) => true,
        None => false,
    }
}

/// End of the whitespace run starting at `i`.
pub fn skip_ws(cs: &Vec<char>, i: usize) -> (r: usize)
    requires
        i <= cs@.len(),
    ensures
        r == spec_skip_ws(cs@, i as int),
        i <= r <= cs@.len(),
{
    let n = cs.len();
    let mut j: usize = i;
    while j < n && (cs[j] == ' ' || cs[j] == '\t')
        invariant
            i <= j <= n,
            n == cs@.len(),
            spec_skip_ws(cs@, i as int) == spec_skip_ws(cs@, j as int),
        decreases n - j,
    {
        j += 1;
    }
    j
}

/// End of the token starting at `i`.
pub fn token_end(cs: &Vec<char>, i: usize) -> (r: usize)
    requires
        i <= cs@.len(),
    ensures
        r == spec_token_end(cs@, i as int),
        i <= r <= cs@.len(),
{
    let n = cs.len();
    let mut j: usize = i;
    while j < n && !(cs[j] == ' ' || cs[j] == '\t')
        invariant
            i <= j <= n,
            n == cs@.len(),
            spec_token_end(cs@, i as int) == spec_token_end(cs@, j as int),
        decreases n - j,
    {
        j += 1;
    }
    j
}

/// End of the digit run starting at `i`.
pub fn digits_end(cs: &Vec<char>, i: usize) -> (r: usize)
    requires
        i <= cs@.len(),
    ensures
        r == spec_digits_end(cs@, i as int),
        i <= r <= cs@.len(),
{
    let n = cs.len();
    let mut j: usize = i;
    while j < n && '0' <= cs[j] && cs[j] <= '9'
        invariant
            i <= j <= n,
            n == cs@.len(),
            spec_digits_end(cs@, i as int) == spec_digits_end(cs@, j as int),
        decreases n - j,
    {
        j += 1;
    }
    j
}

/// Position of the first occurrence of the character `c` at or after `from`.
pub open spec fn spec_find_char(s: Seq<char>, c: char, from: int) -> Option<int>
    decreases s.len() - from,
{
    if from < 0 || from >= s.len() {
        None
    } else if s[from] == c {
        Some(from)
    } else {
        spec_find_char(s, c, from + 1)
    }
}

/// A bracketed field: the first occurrence of `prefix` at or after `from`
/// that is followed by a nonempty run of characters up to a closing `]`.
/// An occurrence whose run is empty is skipped and the search goes on
/// just after it. The result is the run's start and end.
pub open spec fn spec_find_bracket(s: Seq<char>, prefix: Seq<char>, from: int) -> Option<(int, int)>
    decreases s.len() - from + 1,
{
    if from < 0 || from + prefix.len() > s.len() {
        None
    } else if match_at(s, prefix, from) {
        let b = from + prefix.len();
        match spec_find_char(s, ']', b) {
            None => None,
            Some(rb) => if rb > b {
                Some((b, rb))
            } else {
                spec_find_bracket(s, prefix, from + 1)
            },
        }
    } else {
        spec_find_bracket(s, prefix, from + 1)
    }
}

pub proof fn lemma_find_char_bounds(s: Seq<char>, c: char, from: int)
    requires
        spec_find_char(s, c, from) is Some,
    ensures
        from <= spec_find_char(s, c, from)->Some_0 < s.len(),
        s[spec_find_char(s, c, from)->Some_0] == c,
    decreases s.len() - from,
{
    if !(from < 0 || from >= s.len()) && s[from] != c {
        lemma_find_char_bounds(s, c, from + 1);
    }
}

pub proof fn lemma_bracket_bounds(s: Seq<char>, prefix: Seq<char>, from: int)
    requires
        spec_find_bracket(s, prefix, from) is Some,
    ensures
        from <= spec_find_bracket(s, prefix, from)->Some_0.0,
        spec_find_bracket(s, prefix, from)->Some_0.0 < spec_find_bracket(s, prefix, from)->Some_0.1,
        spec_find_bracket(s, prefix, from)->Some_0.1 < s.len(),
    decreases s.len() - from + 1,
{
    if !(from < 0 || from + prefix.len() > s.len()) {
        if match_at(s, prefix, from) {
            let b = from + prefix.len();
            if spec_find_char(s, ']', b) is Some {
                lemma_find_char_bounds(s, ']', b);
                let rb = spec_find_char(s, ']', b)->Some_0;
                if !(rb > b) {
                    lemma_bracket_bounds(s, prefix, from + 1);
                }
            }
        } else {
            lemma_bracket_bounds(s, prefix, from + 1);
        }
    }
}

/// All bracketed fields with the given prefix, in order of occurrence.
pub open spec fn spec_scan_brackets(s: Seq<char>, prefix: Seq<char>, from: int) -> Seq<Seq<char>>
    decreases s.len() - from + 1,
    via spec_scan_brackets_decreases
{
    match spec_find_bracket(s, prefix, from) {
        None => Seq::empty(),
        Some((b, rb)) => seq![s.subrange(b, rb)] + spec_scan_brackets(s, prefix, rb + 1),
    }
}

#[via_fn]
proof fn spec_scan_brackets_decreases(s: Seq<char>, prefix: Seq<char>, from: int) {
    if spec_find_bracket(s, prefix, from) is Some {
        lemma_bracket_bounds(s, prefix, from);
    }
}

/// First position of `c` at or after `from`.
pub fn find_char(cs: &Vec<char>, c: char, from: usize) -> (r: Option<usize>)
    requires
        from <= cs@.len(),
    ensures
        match r {
            Some(j) => spec_find_char(cs@, c, from as int) == Some(j as int) && from <= j
                < cs@.len(),
            None => spec_find_char(cs@, c, from as int) is None,
        },
{
    let n = cs.len();
    let mut j: usize = from;
    while j < n
        invariant
            from <= j <= n,
            n == cs@.len(),
            spec_find_char(cs@, c, from as int) == spec_find_char(cs@, c, j as int),
        decreases n - j,
    {
        if cs[j] == c {
            return Some(j);
        }
        j += 1;
    }
    None
}

/// First bracketed field with the given prefix at or after `from`.
pub fn find_bracket(cs: &Vec<char>, prefix: &Vec<char>, from: usize) -> (r: Option<(usize, usize)>)
    requires
        from <= cs@.len(),
        prefix@.len() >= 1,
    ensures
        match r {
            Some(p) => spec_find_bracket(cs@, prefix@, from as int) == Some(
                (p.0 as int, p.1 as int),
            ) && from <= p.0 < p.1 < cs@.len(),
            None => spec_find_bracket(cs@, prefix@, from as int) is None,
        },
{
    let n = cs.len();
    let m = prefix.len();
    if m > n || from > n - m {
        return None;
    }
    let bound = n - m;
    let mut i: usize = from;
    while i <= bound
        invariant
            from <= i <= bound + 1,
            bound == n - m,
            1 <= m == prefix@.len(),
            n == cs@.len(),
            spec_find_bracket(cs@, prefix@, from as int) == spec_find_bracket(
                cs@,
                prefix@,
                i as int,
            ),
        decreases n - i,
    {
        if match_at_exec(cs, prefix, i) {
            let b = i + m;
            match find_char(cs, ']', b) {
                None => {
                    return None;
                },
                Some(rb) => {
                    if rb > b {
                        return Some((b, rb));
                    }
                },
            }
        }
        i += 1;
    }
    None
}

/// The characters of `s`, in order.
pub fn str_chars(s: &str) -> (r: Vec<char>)
    ensures
        r@ == s@,
{
    let n = s.unicode_len();
    let mut out: Vec<char> = Vec::new();
    let mut i: usize = 0;
    while i < n
        invariant
            i <= n,
            n == s@.len(),
            out@ =~= s@.subrange(0, i as int),
        decreases n - i,
    {
        let c = s.get_char(i);
        out.push(c);
        proof {
            assert(out@ =~= s@.subrange(0, i + 1));
        }
        i += 1;
    }
    proof {
        assert(out@ =~= s@);
    }
    out
}

} // verus!
