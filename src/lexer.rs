//! Character classes and token-level recognisers over the source bytes.
//!
//! Each recogniser is a spec function from a position to the position after
//! what it matched, and an executable function proved equal to it.
use vstd::prelude::*;

verus! {

pub open spec fn is_space(b: u8) -> bool {
    b == 32 || b == 9 || b == 10 || b == 13
}

pub open spec fn is_digit(b: u8) -> bool {
    48 <= b <= 57
}

pub open spec fn is_ident_start(b: u8) -> bool {
    (65 <= b <= 90) || (97 <= b <= 122) || b == 95
}

pub open spec fn is_ident_char(b: u8) -> bool {
    is_ident_start(b) || is_digit(b)
}

/// The first position at or after `i` whose byte is not whitespace.
pub open spec fn skip_space(s: Seq<u8>, i: int) -> int
    decreases s.len() - i,
{
    if 0 <= i < s.len() && is_space(s[i]) {
        skip_space(s, i + 1)
    } else {
        i
    }
}

/// The first position at or after `i` whose byte is not a digit.
pub open spec fn skip_digits(s: Seq<u8>, i: int) -> int
    decreases s.len() - i,
{
    if 0 <= i < s.len() && is_digit(s[i]) {
        skip_digits(s, i + 1)
    } else {
        i
    }
}

/// The first position at or after `i` whose byte cannot continue an identifier.
pub open spec fn skip_ident_chars(s: Seq<u8>, i: int) -> int
    decreases s.len() - i,
{
    if 0 <= i < s.len() && is_ident_char(s[i]) {
        skip_ident_chars(s, i + 1)
    } else {
        i
    }
}

/// The first position at or after `i` that is neither whitespace nor inside
/// a comment. A comment runs from `#` up to and including the next line
/// break, or to the end of the text.
pub open spec fn skip_trivia(s: Seq<u8>, i: int) -> int
    decreases s.len() - i,
{
    if 0 <= i < s.len() && is_space(s[i]) {
        skip_trivia(s, i + 1)
    } else if 0 <= i < s.len() && s[i] == 35 {
        skip_comment(s, i + 1)
    } else {
        i
    }
}

/// Where trivia ends when position `i` lies inside a comment.
pub open spec fn skip_comment(s: Seq<u8>, i: int) -> int
    decreases s.len() - i,
{
    if 0 <= i < s.len() {
        if s[i] == 10 {
            skip_trivia(s, i + 1)
        } else {
            skip_comment(s, i + 1)
        }
    } else {
        i
    }
}

/// The text of bytes read as characters (the identifiers are ASCII).
pub open spec fn chars_of(b: Seq<u8>) -> Seq<char> {
    b.map_values(|c: u8| c as char)
}

/// An identifier `[A-Za-z_][A-Za-z0-9_]*` at `i`: its name and the position after it.
pub open spec fn ident(s: Seq<u8>, i: int) -> Option<(Seq<char>, int)> {
    if 0 <= i < s.len() && is_ident_start(s[i]) {
        let j = skip_ident_chars(s, i + 1);
        Some((chars_of(s.subrange(i, j)), j))
    } else {
        None
    }
}

/// The byte `c` at `i`, with whitespace allowed before and after it.
pub open spec fn symbol(s: Seq<u8>, i: int, c: u8) -> Option<int> {
    let j = skip_space(s, i);
    if 0 <= j < s.len() && s[j] == c {
        Some(skip_space(s, j + 1))
    } else {
        None
    }
}

/// The bytes `w` at `i`, with whitespace allowed before and after them.
pub open spec fn keyword(s: Seq<u8>, i: int, w: Seq<u8>) -> Option<int> {
    let j = skip_space(s, i);
    if 0 <= j && j + w.len() <= s.len() && s.subrange(j, j + w.len()) == w {
        Some(skip_space(s, j + w.len()))
    } else {
        None
    }
}

pub proof fn lemma_skip_space_bounds(s: Seq<u8>, i: int)
    requires
        0 <= i <= s.len(),
    ensures
        i <= skip_space(s, i) <= s.len(),
    decreases s.len() - i,
{
    if i < s.len() && is_space(s[i]) {
        lemma_skip_space_bounds(s, i + 1);
    }
}

pub proof fn lemma_skip_digits_bounds(s: Seq<u8>, i: int)
    requires
        0 <= i <= s.len(),
    ensures
        i <= skip_digits(s, i) <= s.len(),
        forall|k: int| i <= k < skip_digits(s, i) ==> is_digit(#[trigger] s[k]),
    decreases s.len() - i,
{
    if i < s.len() && is_digit(s[i]) {
        lemma_skip_digits_bounds(s, i + 1);
    }
}

pub proof fn lemma_skip_ident_bounds(s: Seq<u8>, i: int)
    requires
        0 <= i <= s.len(),
    ensures
        i <= skip_ident_chars(s, i) <= s.len(),
        forall|k: int| i <= k < skip_ident_chars(s, i) ==> is_ident_char(#[trigger] s[k]),
    decreases s.len() - i,
{
    if i < s.len() && is_ident_char(s[i]) {
        lemma_skip_ident_bounds(s, i + 1);
    }
}

pub fn skip_space_exec(s: &[u8], i: usize) -> (r: usize)
    requires
        i <= s@.len(),
    ensures
        r == skip_space(s@, i as int),
        i <= r <= s@.len(),
{
    let mut k = i;
    while k < s.len() && (s[k] == 32 || s[k] == 9 || s[k] == 10 || s[k] == 13)
        invariant
            i <= k <= s@.len(),
            skip_space(s@, k as int) == skip_space(s@, i as int),
        decreases s@.len() - k,
    {
        k = k + 1;
    }
    k
}

pub fn skip_digits_exec(s: &[u8], i: usize) -> (r: usize)
    requires
        i <= s@.len(),
    ensures
        r == skip_digits(s@, i as int),
        i <= r <= s@.len(),
{
    let mut k = i;
    while k < s.len() && 48 <= s[k] && s[k] <= 57
        invariant
            i <= k <= s@.len(),
            skip_digits(s@, k as int) == skip_digits(s@, i as int),
        decreases s@.len() - k,
    {
        k = k + 1;
    }
    k
}

fn is_ident_char_exec(b: u8) -> (r: bool)
    ensures
        r == is_ident_char(b),
{
    (65 <= b && b <= 90) || (97 <= b && b <= 122) || b == 95 || (48 <= b && b <= 57)
}

pub fn skip_trivia_exec(s: &[u8], i: usize) -> (r: usize)
    requires
        i <= s@.len(),
    ensures
        r == skip_trivia(s@, i as int),
        i <= r <= s@.len(),
{
    let mut k = i;
    let mut in_comment = false;
    while k < s.len() && (in_comment || s[k] == 32 || s[k] == 9 || s[k] == 10 || s[k] == 13
        || s[k] == 35)
        invariant
            i <= k <= s@.len(),
            skip_trivia(s@, i as int) == if in_comment {
                skip_comment(s@, k as int)
            } else {
                skip_trivia(s@, k as int)
            },
        decreases s@.len() - k,
    {
        if in_comment {
            if s[k] == 10 {
                in_comment = false;
            }
        } else if s[k] == 35 {
            in_comment = true;
        }
        k = k + 1;
    }
    k
}

/// Relies on `String::push`: appends one character at the end.
#[verifier::external_body]
pub(crate) fn push_char(t: &mut String, c: char)
    ensures
        final(t)@ == old(t)@.push(c),
{
    t.push(c)
}

/// The identifier that starts at `i`, if any, and the position after it.
pub fn ident_exec(s: &[u8], i: usize) -> (r: Option<(String, usize)>)
    requires
        i <= s@.len(),
    ensures
        match ident(s@, i as int) {
            Some((name, j)) => r matches Some((t, k)) && t@ == name && k == j && i < k <= s@.len(),
            None => r is None,
        },
{
    if i < s.len() && ((65 <= s[i] && s[i] <= 90) || (97 <= s[i] && s[i] <= 122) || s[i] == 95) {
        let mut t = String::new();
        let mut k = i;
        while k < s.len() && (k == i || is_ident_char_exec(s[k]))
            invariant
                i <= k <= s@.len(),
                k > i ==> skip_ident_chars(s@, k as int) == skip_ident_chars(s@, i + 1),
                t@ == chars_of(s@.subrange(i as int, k as int)),
            decreases s@.len() - k,
        {
            push_char(&mut t, s[k] as char);
            proof {
                assert(s@.subrange(i as int, k + 1) == s@.subrange(i as int, k as int).push(s@[k as int]));
            }
            k = k + 1;
        }
        Some((t, k))
    } else {
        None
    }
}

pub fn symbol_exec(s: &[u8], i: usize, c: u8) -> (r: Option<usize>)
    requires
        i <= s@.len(),
    ensures
        symbol(s@, i as int, c) is None <==> r is None,
        r matches Some(j) ==> symbol(s@, i as int, c) == Some(j as int) && i < j <= s@.len(),
{
    let j = skip_space_exec(s, i);
    if j < s.len() && s[j] == c {
        proof {
            lemma_skip_space_bounds(s@, j + 1);
        }
        Some(skip_space_exec(s, j + 1))
    } else {
        None
    }
}

pub fn keyword_exec(s: &[u8], i: usize, w: &[u8]) -> (r: Option<usize>)
    requires
        i <= s@.len(),
        w@.len() > 0,
    ensures
        keyword(s@, i as int, w@) is None <==> r is None,
        r matches Some(j) ==> keyword(s@, i as int, w@) == Some(j as int) && i < j <= s@.len(),
{
    let j = skip_space_exec(s, i);
    if w.len() > s.len() - j {
        return None;
    }
    let mut k: usize = 0;
    while k < w.len()
        invariant
            i <= j <= s@.len(),
            j == skip_space(s@, i as int),
            j + w.len() <= s.len(),
            k <= w@.len(),
            forall|m: int| 0 <= m < k ==> s@[j + m] == w@[m],
        decreases w@.len() - k,
    {
        if s[j + k] != w[k] {
            proof {
                assert(s@.subrange(j as int, j + w@.len())[k as int] != w@[k as int]);
            }
            return None;
        }
        k = k + 1;
    }
    proof {
        assert(s@.subrange(j as int, j + w@.len()) =~= w@);
        lemma_skip_space_bounds(s@, j + w@.len());
    }
    Some(skip_space_exec(s, j + w.len()))
}

} // verus!
