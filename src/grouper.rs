use vstd::prelude::*;
use vstd::string::StringExecFns;

use crate::grouping::{join_lf, join_lines, pair_lines, paired};
use crate::text::{filter_lines, filtered_lines};

verus! {

/// Why a text cannot be grouped.
#[derive(Clone, Copy, Debug, PartialEq, Eq, Structural)]
pub enum GroupError {
    /// The group size is below 2.
    GroupSizeTooSmall,
    /// The number of lines is not a multiple of the group size.
    LineCountNotMultiple,
}

/// The message shown for a group size below 2.
pub open spec fn too_small_message() -> Seq<char> {
    "每组行数应当大于1"@
}

/// The message shown for a line count that is not a multiple of the group size.
pub open spec fn not_multiple_message() -> Seq<char> {
    "总行数应当是每组行数的倍数"@
}

/// The user-facing message of each error.
pub open spec fn message_of(e: GroupError) -> Seq<char> {
    match e {
        GroupError::GroupSizeTooSmall => too_small_message(),
        GroupError::LineCountNotMultiple => not_multiple_message(),
    }
}

impl GroupError {
    /// The user-facing message of this error.
    pub fn message(&self) -> (r: String)
        ensures
            r@ == message_of(*self),
    {
        match self {
            GroupError::GroupSizeTooSmall => String::from_str("每组行数应当大于1"),
            GroupError::LineCountNotMultiple => String::from_str("总行数应当是每组行数的倍数"),
        }
    }
}

/// What grouping the text `s` in groups of `m` gives: the size is checked
/// first, then the line count, then each group becomes its block of pairs.
pub open spec fn grouped(s: Seq<char>, m: nat) -> Result<Seq<char>, GroupError> {
    if m < 2 {
        Err(GroupError::GroupSizeTooSmall)
    } else if filtered_lines(s).len() % m != 0 {
        Err(GroupError::LineCountNotMultiple)
    } else {
        Ok(join_lf(paired(filtered_lines(s), m)))
    }
}

/// Groups the lines of `input` by `m`: each line of a group but the last is
/// followed by the group's last line and a blank line.
pub fn transform(input: &str, m: usize) -> (r: Result<String, GroupError>)
    ensures
        match r {
            Ok(o) => grouped(input@, m as nat) == Ok::<Seq<char>, GroupError>(o@),
            Err(e) => grouped(input@, m as nat) == Err::<Seq<char>, GroupError>(e),
        },
{
    let lines = filter_lines(input);
    if m <= 1 {
        return Err(GroupError::GroupSizeTooSmall);
    }
    if lines.len() % m != 0 {
        return Err(GroupError::LineCountNotMultiple);
    }
    let pairs = pair_lines(&lines, m);
    Ok(join_lines(&pairs))
}

/// Groups the lines of `input` by `m`, as `transform` does, with the error
/// given as its message.
pub fn process(input: &str, m: usize) -> (r: Result<String, String>)
    ensures
        match r {
            Ok(o) => grouped(input@, m as nat) == Ok::<Seq<char>, GroupError>(o@),
            Err(msg) => grouped(input@, m as nat) is Err && msg@ == message_of(
                grouped(input@, m as nat)->Err_0,
            ),
        },
{
    match transform(input, m) {
        Ok(o) => Ok(o),
        Err(e) => Err(e.message()),
    }
}

} // verus!
