use vstd::prelude::*;
use vstd::string::*;

verus! {

/// `r` is `c` in ASCII upper case: `a` to `z` become `A` to `Z`, anything
/// else stays.
pub open spec fn is_ascii_upper_of(c: char, r: char) -> bool {
    if 'a' <= c && c <= 'z' {
        r as u32 == c as u32 - 32
    } else {
        r == c
    }
}

/// Words are separated by `_` or a space.
pub open spec fn is_separator(c: char) -> bool {
    c == '_' || c == ' '
}

/// The name with each `_` a space and the first letter of each word in upper case.
pub open spec fn titled(s: Seq<char>, r: Seq<char>) -> bool {
    &&& r.len() == s.len()
    &&& forall|i: int|
        0 <= i < s.len() ==> if is_separator(#[trigger] s[i]) {
            r[i] == ' '
        } else if i == 0 || is_separator(s[i - 1]) {
            is_ascii_upper_of(s[i], r[i])
        } else {
            r[i] == s[i]
        }
}

/// `c` in ASCII upper case.
fn ascii_upper(c: char) -> (r: char)
    ensures
        is_ascii_upper_of(c, r),
{
    if 'a' <= c && c <= 'z' {
        ((c as u32 - 32) as u8) as char
    } else {
        c
    }
}

/// Relies on `String::push`: appends the character.
#[verifier::external_body]
fn push_char(s: &mut String, c: char)
    ensures
        final(s)@ == old(s)@.push(c),
{
    s.push(c)
}

/// `name` with underscores as spaces and each word capitalised.
pub fn title_case(name: &str) -> (r: String)
    ensures
        titled(name@, r@),
{
    let mut sb = String::new();
    let len = name.unicode_len();
    let mut prev_space = true;
    let mut i: usize = 0;
    while i < len
        invariant
            len == name@.len(),
            i <= len,
            sb@.len() == i,
            prev_space == (i == 0 || is_separator(name@[i - 1])),
            forall|j: int|
                0 <= j < i ==> if is_separator(#[trigger] name@[j]) {
                    sb@[j] == ' '
                } else if j == 0 || is_separator(name@[j - 1]) {
                    is_ascii_upper_of(name@[j], sb@[j])
                } else {
                    sb@[j] == name@[j]
                },
        decreases len - i,
    {
        let raw = name.get_char(i);
        let c = if raw == '_' {
            ' '
        } else {
            raw
        };
        if c == ' ' {
            prev_space = true;
            push_char(&mut sb, c);
        } else if prev_space {
            push_char(&mut sb, ascii_upper(c));
            prev_space = false;
        } else {
            push_char(&mut sb, c);
        }
        i = i + 1;
    }
    sb
}

} // verus!
