use vstd::prelude::*;
use vstd::std_specs::iter::IteratorSpec;
use vstd::string::StringExecFns;

use crate::grouper::{grouped, message_of, transform};
use crate::text::{trim, trimmed};

verus! {

/// The message shown when the group-size field holds no number.
pub open spec fn missing_size_message() -> Seq<char> {
    "请输入每组行数"@
}

/// Whether `c` is an ASCII decimal digit.
pub open spec fn is_digit(c: char) -> bool {
    48 <= c as u32 && c as u32 <= 57
}

/// Whether every character of `s` is an ASCII decimal digit.
pub open spec fn all_digits(s: Seq<char>) -> bool {
    forall|k: int| 0 <= k < s.len() ==> is_digit(#[trigger] s[k])
}

/// The value of the decimal digits `s`, most significant first.
pub open spec fn digits_value(s: Seq<char>) -> nat
    decreases s.len(),
{
    if s.len() == 0 {
        0
    } else {
        digits_value(s.drop_last()) * 10 + (s.last() as u32 - 48) as nat
    }
}

/// `s` without one leading `+`, if it has one.
pub open spec fn unsigned_digits(s: Seq<char>) -> Seq<char> {
    if s.len() > 0 && s[0] == '+' {
        s.drop_first()
    } else {
        s
    }
}

/// The `usize` that `s` spells in decimal: an optional `+`, then one or more
/// digits whose value fits; none for anything else.
pub open spec fn usize_of(s: Seq<char>) -> Option<usize> {
    let d = unsigned_digits(s);
    if d.len() > 0 && all_digits(d) && digits_value(d) <= usize::MAX {
        Some(digits_value(d) as usize)
    } else {
        None
    }
}

/// Relies on `str::parse::<usize>`: it accepts an optional `+` followed by
/// one or more ASCII digits whose value fits in `usize`, and fails on
/// anything else (white space, a `-`, other characters, overflow).
#[verifier::external_body]
fn parse_usize(s: &str) -> (r: Option<usize>)
    ensures
        r == usize_of(s@),
{
    s.parse::<usize>().ok()
}

/// The characters of `s`, in order.
fn chars_of(s: &str) -> (r: Vec<char>)
    ensures
        r@ == s@,
{
    broadcast use vstd::string::group_string_axioms;

    let mut chars = s.chars();
    let mut out: Vec<char> = Vec::new();
    loop
        invariant
            out@ + chars.remaining() == s@,
        ensures
            out@ == s@,
        decreases s@.len() - out@.len(),
    {
        match chars.next() {
            None => {
                assert(out@ =~= s@);
                break;
            },
            Some(c) => {
                out.push(c);
                assert(out@ + chars.remaining() =~= s@);
            },
        }
    }
    out
}

/// The group size that the text of the field gives: the number it holds,
/// white space around it ignored.
pub fn group_size(field: &str) -> (r: Option<usize>)
    ensures
        r == usize_of(trim(field@)),
{
    let cs = chars_of(field);
    let t = trimmed(&cs);
    parse_usize(t.as_str())
}

/// What the output shows after a request to group `input` by the size that
/// `field` holds: the grouped text, or the message of what went wrong.
pub fn generate(input: &str, field: &str) -> (r: String)
    ensures
        match usize_of(trim(field@)) {
            None => r@ == missing_size_message(),
            Some(m) => match grouped(input@, m as nat) {
                Ok(o) => r@ == o,
                Err(e) => r@ == message_of(e),
            },
        },
{
    match group_size(field) {
        None => String::from_str("请输入每组行数"),
        Some(m) => match transform(input, m) {
            Ok(o) => o,
            Err(e) => e.message(),
        },
    }
}

} // verus!
