//! Small text helpers over `&str`, specified on its sequence of characters:
//! comparison, trimming whitespace, and ASCII-case-insensitive matching.

use vstd::prelude::*;
use vstd::string::*;

verus! {

/// Whether a character has the Unicode `White_Space` property: tab, line feed,
/// vertical tab, form feed, carriage return, space, next line, no-break space,
/// ogham space mark, the spaces U+2000 to U+200A, line and paragraph separators,
/// narrow no-break space, medium mathematical space and ideographic space.
pub open spec fn char_is_whitespace(c: char) -> bool {
    let u = c as u32;
    ||| 0x09 <= u <= 0x0D
    ||| u == 0x20
    ||| u == 0x85
    ||| u == 0xA0
    ||| u == 0x1680
    ||| 0x2000 <= u <= 0x200A
    ||| u == 0x2028
    ||| u == 0x2029
    ||| u == 0x202F
    ||| u == 0x205F
    ||| u == 0x3000
}

/// `char::is_whitespace`: whether the character has the `White_Space` property.
#[verifier::external_body]
fn is_whitespace(c: char) -> (r: bool)
    ensures
        r == char_is_whitespace(c),
{
    c.is_whitespace()
}

/// The text without its leading whitespace.
pub open spec fn trim_start(s: Seq<char>) -> Seq<char>
    decreases s.len(),
{
    if s.len() > 0 && char_is_whitespace(s[0]) {
        trim_start(s.drop_first())
    } else {
        s
    }
}

/// The text without its trailing whitespace.
pub open spec fn trim_end(s: Seq<char>) -> Seq<char>
    decreases s.len(),
{
    if s.len() > 0 && char_is_whitespace(s.last()) {
        trim_end(s.drop_last())
    } else {
        s
    }
}

/// The text without leading and trailing whitespace (what `str::trim` gives).
pub open spec fn trim(s: Seq<char>) -> Seq<char> {
    trim_end(trim_start(s))
}

/// `'A'..='Z'` mapped to `'a'..='z'`, every other character unchanged.
pub open spec fn ascii_lower(c: char) -> char {
    if 'A' <= c <= 'Z' {
        ((c as u32) + 32) as char
    } else {
        c
    }
}

/// The text with ASCII letters lowered (what `str::to_ascii_lowercase` gives).
pub open spec fn lowercase(s: Seq<char>) -> Seq<char> {
    s.map_values(|c: char| ascii_lower(c))
}

/// `'a'..='z'` mapped to `'A'..='Z'`, every other character unchanged.
pub open spec fn ascii_upper(c: char) -> char {
    if 'a' <= c <= 'z' {
        ((c as u32) - 32) as char
    } else {
        c
    }
}

/// The text with ASCII letters raised (what `str::to_ascii_uppercase` gives).
pub open spec fn uppercase(s: Seq<char>) -> Seq<char> {
    s.map_values(|c: char| ascii_upper(c))
}

/// Raising a character keeps whether it is whitespace, and lowering it afterwards
/// gives what lowering it alone gives.
proof fn lemma_ascii_upper(c: char)
    ensures
        char_is_whitespace(ascii_upper(c)) == char_is_whitespace(c),
        ascii_lower(ascii_upper(c)) == ascii_lower(c),
{
    if 'a' <= c <= 'z' {
        assert((((c as u32) - 32) as char) as u32 == (c as u32) - 32);
        let u = ascii_upper(c);
        assert('A' <= u <= 'Z');
        assert((((u as u32) + 32) as char) as u32 == (u as u32) + 32);
        assert(ascii_lower(u) as u32 == c as u32);
    }
}

/// Trimming commutes with raising the case.
proof fn lemma_trim_uppercase(s: Seq<char>)
    ensures
        trim_start(uppercase(s)) == uppercase(trim_start(s)),
        trim_end(uppercase(s)) == uppercase(trim_end(s)),
    decreases s.len(),
{
    if s.len() > 0 {
        lemma_ascii_upper(s[0]);
        lemma_ascii_upper(s.last());
        assert(uppercase(s).drop_first() =~= uppercase(s.drop_first()));
        assert(uppercase(s).drop_last() =~= uppercase(s.drop_last()));
        lemma_trim_uppercase(s.drop_first());
        lemma_trim_uppercase(s.drop_last());
    } else {
        assert(uppercase(s) =~= s);
    }
}

/// Lowering the trimmed text does not depend on its ASCII case: raising the case
/// first gives the same result.
pub proof fn lemma_lower_trim_ignores_case(s: Seq<char>)
    ensures
        lowercase(trim(uppercase(s))) == lowercase(trim(s)),
{
    lemma_trim_uppercase(s);
    lemma_trim_uppercase(trim_start(s));
    let t = trim(s);
    assert forall|i: int| 0 <= i < t.len() implies #[trigger] ascii_lower(ascii_upper(t[i])) == ascii_lower(t[i]) by {
        lemma_ascii_upper(t[i]);
    }
    assert(lowercase(uppercase(t)) =~= lowercase(t));
}

/// A text that neither starts nor ends with whitespace is its own trim.
pub proof fn lemma_trim_of_untrimmed(s: Seq<char>)
    requires
        s.len() > 0,
        !char_is_whitespace(s[0]),
        !char_is_whitespace(s.last()),
    ensures
        trim(s) == s,
{
}

/// Whether two texts are equal.
pub fn same_text(a: &str, b: &str) -> (r: bool)
    ensures
        r == (a@ == b@),
{
    let n = a.unicode_len();
    if n != b.unicode_len() {
        return false;
    }
    let mut i: usize = 0;
    while i < n
        invariant
            n == a@.len(),
            n == b@.len(),
            i <= n,
            forall|k: int| 0 <= k < i ==> a@[k] == b@[k],
        decreases n - i,
    {
        if a.get_char(i) != b.get_char(i) {
            return false;
        }
        i = i + 1;
    }
    proof {
        assert(a@ =~= b@);
    }
    true
}

/// Whether the lowered `c` is `w`.
fn lower_eq(c: char, w: char) -> (r: bool)
    ensures
        r == (ascii_lower(c) == w),
{
    if 'A' <= c && c <= 'Z' {
        proof {
            assert((((c as u32) + 32) as char) as u32 == (c as u32) + 32);
        }
        (c as u32) + 32 == (w as u32)
    } else {
        c == w
    }
}

/// Bounds `[lo, hi)` of `s` without leading and trailing whitespace.
pub fn trim_bounds(s: &str) -> (r: (usize, usize))
    ensures
        r.0 <= r.1 <= s@.len(),
        s@.subrange(r.0 as int, r.1 as int) == trim(s@),
{
    let n = s.unicode_len();
    let mut lo: usize = 0;
    proof {
        assert(s@.subrange(0, n as int) =~= s@);
    }
    while lo < n && is_whitespace(s.get_char(lo))
        invariant
            n == s@.len(),
            lo <= n,
            trim_start(s@) == trim_start(s@.subrange(lo as int, n as int)),
        decreases n - lo,
    {
        proof {
            let t = s@.subrange(lo as int, n as int);
            assert(t.drop_first() =~= s@.subrange(lo + 1, n as int));
        }
        lo = lo + 1;
    }
    proof {
        let t = s@.subrange(lo as int, n as int);
        assert(trim_start(t) == t);
    }
    let mut hi: usize = n;
    while hi > lo && is_whitespace(s.get_char(hi - 1))
        invariant
            n == s@.len(),
            lo <= hi <= n,
            trim(s@) == trim_end(s@.subrange(lo as int, hi as int)),
        decreases hi - lo,
    {
        proof {
            let t = s@.subrange(lo as int, hi as int);
            assert(t.drop_last() =~= s@.subrange(lo as int, hi - 1));
        }
        hi = hi - 1;
    }
    proof {
        let t = s@.subrange(lo as int, hi as int);
        assert(trim_end(t) == t);
    }
    (lo, hi)
}

/// Whether `s[lo..hi]`, ASCII letters lowered, is `word`.
pub fn lowered_range_is(s: &str, lo: usize, hi: usize, word: &str) -> (r: bool)
    requires
        lo <= hi <= s@.len(),
    ensures
        r == (lowercase(s@.subrange(lo as int, hi as int)) == word@),
{
    let ghost t = s@.subrange(lo as int, hi as int);
    let m = word.unicode_len();
    if hi - lo != m {
        proof {
            assert(lowercase(t).len() != word@.len());
        }
        return false;
    }
    let mut i: usize = 0;
    while i < m
        invariant
            t == s@.subrange(lo as int, hi as int),
            lo <= hi <= s@.len(),
            m == word@.len(),
            hi - lo == m,
            i <= m,
            forall|k: int| 0 <= k < i ==> ascii_lower(#[trigger] t[k]) == word@[k],
        decreases m - i,
    {
        if !lower_eq(s.get_char(lo + i), word.get_char(i)) {
            proof {
                assert(lowercase(t)[i as int] != word@[i as int]);
            }
            return false;
        }
        i = i + 1;
    }
    proof {
        assert(lowercase(t) =~= word@);
    }
    true
}

/// The decimal digits of a natural number.
pub open spec fn digits(n: nat) -> Seq<char>
    decreases n,
{
    if n < 10 {
        seq![('0' as u8 + n) as char]
    } else {
        digits(n / 10).push(('0' as u8 + n % 10) as char)
    }
}

/// An integer written in decimal, with a minus sign when negative.
pub open spec fn int_text(n: int) -> Seq<char> {
    if n < 0 {
        seq!['-'] + digits((-n) as nat)
    } else {
        digits(n as nat)
    }
}

/// `i64`'s `Display` (through `to_string`): the number in decimal, with a minus
/// sign when negative.
#[verifier::external_body]
pub(crate) fn i64_to_string(n: i64) -> (r: String)
    ensures
        r@ == int_text(n as int),
{
    n.to_string()
}

/// `u64`'s `Display` (through `to_string`): the number in decimal.
#[verifier::external_body]
pub(crate) fn u64_to_string(n: u64) -> (r: String)
    ensures
        r@ == int_text(n as int),
{
    n.to_string()
}

} // verus!
