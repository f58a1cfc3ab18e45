//! Character-level text utilities shared by the configuration and
//! authorization helpers.

use vstd::prelude::*;
use vstd::std_specs::iter::IteratorSpec;

verus! {

broadcast use vstd::string::axiom_spec_iter, vstd::string::next_postcondition;

/// The characters of a string, in order.
pub fn chars_of(s: &str) -> (r: Vec<char>)
    ensures
        r@ == s@,
{
    let mut it = s.chars();
    let mut out: Vec<char> = Vec::new();
    loop
        invariant
            it.decrease() is Some,
            out@ + it.remaining() == s@,
        decreases it.decrease()->0,
    {
        match it.next() {
            Some(c) => {
                out.push(c);
            },
            None => {
                proof {
                    assert(out@ + it.remaining() =~= out@);
                }
                return out;
            },
        }
    }
}

/// Builds a `String` from characters.
///
/// Relies on `String`'s `FromIterator<char>`: collecting an iterator of
/// characters yields the string of exactly those characters in order.
#[verifier::external_body]
pub fn string_from_chars(cs: &Vec<char>) -> (r: String)
    ensures
        r@ == cs@,
{
    cs.iter().collect()
}

/// The ASCII-lowercase counterpart of a character; anything outside `A`..`Z`
/// is unchanged.
pub open spec fn lower_char(c: char) -> char {
    if 'A' as int <= c as int <= 'Z' as int {
        ((c as u8) + 32) as char
    } else {
        c
    }
}

/// Case-insensitive (ASCII) equality of two character sequences.
pub open spec fn eq_ignore_ascii_case(a: Seq<char>, b: Seq<char>) -> bool {
    a.len() == b.len() && forall|i: int|
        0 <= i < a.len() ==> lower_char(#[trigger] a[i]) == lower_char(b[i])
}

/// Lowercases one character.
pub fn lower(c: char) -> (r: char)
    ensures
        r == lower_char(c),
{
    let u = c as u32;
    if u >= 65 && u <= 90 {
        ((u + 32) as u8) as char
    } else {
        c
    }
}

/// Compares two character vectors ignoring ASCII case.
pub fn chars_eq_ignore_ascii_case(a: &Vec<char>, b: &Vec<char>) -> (r: bool)
    ensures
        r == eq_ignore_ascii_case(a@, b@),
{
    if a.len() != b.len() {
        return false;
    }
    let mut i: usize = 0;
    while i < a.len()
        invariant
            a@.len() == b@.len(),
            i <= a@.len(),
            forall|k: int| 0 <= k < i ==> lower_char(#[trigger] a@[k]) == lower_char(b@[k]),
        decreases a@.len() - i,
    {
        if lower(a[i]) != lower(b[i]) {
            return false;
        }
        i += 1;
    }
    true
}

/// The Unicode code point of a character.
pub fn char_code(c: char) -> (u: u32)
    ensures
        u as int == c as int,
{
    c as u32
}

/// The Unicode white-space code points: the characters that trimming a
/// string removes.
pub open spec fn is_whitespace_code(u: int) -> bool {
    ||| u == 0x9
    ||| u == 0xA
    ||| u == 0xB
    ||| u == 0xC
    ||| u == 0xD
    ||| u == 0x20
    ||| u == 0x85
    ||| u == 0xA0
    ||| u == 0x1680
    ||| 0x2000 <= u <= 0x200A
    ||| u == 0x2028
    ||| u == 0x2029
    ||| u == 0x202F
    ||| u == 0x205F
    ||| u == 0x3000
}

/// Whether `c` has the Unicode white-space property.
pub open spec fn is_whitespace_char(c: char) -> bool {
    is_whitespace_code(c as int)
}

/// Whether `c` has the Unicode white-space property.
pub fn is_whitespace_char_exec(c: char) -> (r: bool)
    ensures
        r == is_whitespace_char(c),
{
    let u = char_code(c);
    (u >= 0x9 && u <= 0xD) || u == 0x20 || u == 0x85 || u == 0xA0 || u == 0x1680 || (u >= 0x2000
        && u <= 0x200A) || u == 0x2028 || u == 0x2029 || u == 0x202F || u == 0x205F || u == 0x3000
}

/// The sequence without its leading white space.
pub open spec fn trim_start(s: Seq<char>) -> Seq<char>
    decreases s.len(),
{
    if s.len() > 0 && is_whitespace_char(s[0]) {
        trim_start(s.drop_first())
    } else {
        s
    }
}

/// The sequence without its trailing white space.
pub open spec fn trim_end(s: Seq<char>) -> Seq<char>
    decreases s.len(),
{
    if s.len() > 0 && is_whitespace_char(s.last()) {
        trim_end(s.drop_last())
    } else {
        s
    }
}

/// A scan that stops at the first non-whitespace character finds where
/// `trim_start` cuts.
pub proof fn lemma_trim_start_skip(s: Seq<char>, st: int)
    requires
        0 <= st <= s.len(),
        forall|k: int| 0 <= k < st ==> is_whitespace_char(#[trigger] s[k]),
        st == s.len() || !is_whitespace_char(s[st]),
    ensures
        trim_start(s) == s.skip(st),
    decreases st,
{
    if st == 0 {
        assert(s.skip(0) =~= s);
    } else {
        assert(is_whitespace_char(s[0]));
        lemma_trim_start_skip(s.drop_first(), st - 1);
        assert(s.drop_first().skip(st - 1) =~= s.skip(st));
    }
}

/// A scan that stops at the last non-whitespace character finds where
/// `trim_end` cuts.
pub proof fn lemma_trim_end_take(s: Seq<char>, en: int)
    requires
        0 <= en <= s.len(),
        forall|k: int| en <= k < s.len() ==> is_whitespace_char(#[trigger] s[k]),
        en == 0 || !is_whitespace_char(s[en - 1]),
    ensures
        trim_end(s) == s.take(en),
    decreases s.len() - en,
{
    if en == s.len() {
        assert(s.take(en) =~= s);
    } else {
        assert(is_whitespace_char(s.last()));
        lemma_trim_end_take(s.drop_last(), en);
        assert(s.drop_last().take(en) =~= s.take(en));
    }
}

} // verus!
