use vstd::prelude::*;

use crate::text::{chars_to_string, to_chars};

verus! {

/// True exactly for the ten ASCII digit characters.
pub open spec fn spec_is_ascii_digit(c: char) -> bool {
    '0' <= c && c <= '9'
}

/// Executable test for an ASCII digit, equal to `spec_is_ascii_digit`.
pub fn is_digit_char(c: char) -> (r: bool)
    ensures
        r == spec_is_ascii_digit(c),
{
    '0' <= c && c <= '9'
}

/// The ASCII digits of `s`, in order; every other character is dropped.
pub open spec fn digits_of(s: Seq<char>) -> Seq<char> {
    s.filter(|c: char| spec_is_ascii_digit(c))
}

/// Canonicalizes a free-text phone value into its digit-only form.
pub fn normalize_phone(value: &str) -> (r: String)
    ensures
        r@ == digits_of(value@),
{
    let cs = to_chars(value);
    let mut out: Vec<char> = Vec::new();
    let mut i: usize = 0;
    while i < cs.len()
        invariant
            cs@ == value@,
            i <= cs@.len(),
            out@ == digits_of(value@.take(i as int)),
        decreases cs.len() - i,
    {
        if is_digit_char(cs[i]) {
            out.push(cs[i]);
        }
        proof {
            reveal(Seq::filter);
            assert(value@.take(i + 1 as int).drop_last() =~= value@.take(i as int));
            assert(value@.take(i + 1 as int).last() == value@[i as int]);
        }
        i = i + 1;
    }
    assert(value@.take(cs@.len() as int) =~= value@);
    chars_to_string(&out)
}

/// Characters the message store's normalized-handle comparison removes.
pub open spec fn spec_is_separator(c: char) -> bool {
    c == '+' || c == '-' || c == ' ' || c == '(' || c == ')'
}

/// A handle identifier with `+`, `-`, spaces and parentheses removed: the form
/// the store layer compares against digit patterns.
pub open spec fn stripped_of(s: Seq<char>) -> Seq<char> {
    s.filter(|c: char| !spec_is_separator(c))
}

/// Strips `+`, `-`, spaces and parentheses from a raw handle identifier.
pub fn strip_handle(value: &str) -> (r: String)
    ensures
        r@ == stripped_of(value@),
{
    let cs = to_chars(value);
    let mut out: Vec<char> = Vec::new();
    let mut i: usize = 0;
    while i < cs.len()
        invariant
            cs@ == value@,
            i <= cs@.len(),
            out@ == stripped_of(value@.take(i as int)),
        decreases cs.len() - i,
    {
        let c = cs[i];
        if !(c == '+' || c == '-' || c == ' ' || c == '(' || c == ')') {
            out.push(c);
        }
        proof {
            reveal(Seq::filter);
            assert(value@.take(i + 1 as int).drop_last() =~= value@.take(i as int));
            assert(value@.take(i + 1 as int).last() == value@[i as int]);
        }
        i = i + 1;
    }
    assert(value@.take(cs@.len() as int) =~= value@);
    chars_to_string(&out)
}

/// How one character is escaped for the scripting transport: backslashes and
/// double quotes get a leading backslash, all else is kept as is.
pub open spec fn escaped_char(c: char) -> Seq<char> {
    if c == '\\' {
        seq!['\\', '\\']
    } else if c == '"' {
        seq!['\\', '"']
    } else {
        seq![c]
    }
}

/// The whole string escaped, character by character.
pub open spec fn escaped_of(s: Seq<char>) -> Seq<char>
    decreases s.len(),
{
    if s.len() == 0 {
        Seq::empty()
    } else {
        escaped_of(s.drop_last()) + escaped_char(s.last())
    }
}

/// Escapes backslashes and double quotes so the value can be interpolated into
/// a scripting-transport command without injection.
pub fn escape_applescript_string(input: &str) -> (r: String)
    ensures
        r@ == escaped_of(input@),
{
    let cs = to_chars(input);
    let mut out: Vec<char> = Vec::new();
    let mut i: usize = 0;
    while i < cs.len()
        invariant
            cs@ == input@,
            i <= cs@.len(),
            out@ == escaped_of(input@.take(i as int)),
        decreases cs.len() - i,
    {
        let c = cs[i];
        if c == '\\' {
            out.push('\\');
            out.push('\\');
        } else if c == '"' {
            out.push('\\');
            out.push('"');
        } else {
            out.push(c);
        }
        proof {
            assert(input@.take(i + 1 as int).drop_last() =~= input@.take(i as int));
            assert(input@.take(i + 1 as int).last() == input@[i as int]);
            assert(out@ =~= escaped_of(input@.take(i + 1 as int)));
        }
        i = i + 1;
    }
    assert(input@.take(cs@.len() as int) =~= input@);
    chars_to_string(&out)
}

} // verus!
