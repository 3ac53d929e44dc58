use vstd::prelude::*;
use vstd::std_specs::iter::IteratorSpec;

verus! {

/// What `char::is_whitespace` answers for `c`: whether `c` has the Unicode
/// White_Space property.
pub uninterp spec fn white_space(c: char) -> bool;

/// The ASCII characters with the White_Space property: tab, line feed,
/// vertical tab, form feed, carriage return and space.
pub open spec fn ascii_white_space(c: char) -> bool {
    c as u32 == 32 || (9 <= c as u32 && c as u32 <= 13)
}

/// Relies on `char::is_whitespace`, which tests the Unicode White_Space
/// property; among ASCII characters that property holds of 9 to 13 and 32.
#[verifier::external_body]
fn is_whitespace(c: char) -> (r: bool)
    ensures
        r == white_space(c),
        (c as u32) < 128 ==> (r <==> ascii_white_space(c)),
{
    c.is_whitespace()
}

/// Relies on `String::push`: appends one character.
#[verifier::external_body]
pub(crate) fn push_char(s: &mut String, c: char)
    ensures
        final(s)@ == old(s)@.push(c),
{
    s.push(c)
}

/// `s` without its leading white space.
pub open spec fn trim_start(s: Seq<char>) -> Seq<char>
    decreases s.len(),
{
    if s.len() > 0 && white_space(s[0]) {
        trim_start(s.drop_first())
    } else {
        s
    }
}

/// `s` without its trailing white space.
pub open spec fn trim_end(s: Seq<char>) -> Seq<char>
    decreases s.len(),
{
    if s.len() > 0 && white_space(s.last()) {
        trim_end(s.drop_last())
    } else {
        s
    }
}

/// `s` without leading and trailing white space.
pub open spec fn trim(s: Seq<char>) -> Seq<char> {
    trim_end(trim_start(s))
}

/// The pieces of `s` between line feeds, in order: one more than the line
/// feeds in `s`, so a text that ends in a line feed ends in an empty piece.
pub open spec fn split_lf(s: Seq<char>) -> Seq<Seq<char>>
    decreases s.len(),
{
    if s.len() == 0 {
        seq![Seq::empty()]
    } else {
        let p = split_lf(s.drop_last());
        if s.last() == '\n' {
            p.push(Seq::empty())
        } else {
            p.update(p.len() - 1, p.last().push(s.last()))
        }
    }
}

/// The trimmed pieces that are not empty, in order.
pub open spec fn kept(pieces: Seq<Seq<char>>) -> Seq<Seq<char>>
    decreases pieces.len(),
{
    if pieces.len() == 0 {
        Seq::empty()
    } else {
        let rest = kept(pieces.drop_last());
        let t = trim(pieces.last());
        if t.len() == 0 {
            rest
        } else {
            rest.push(t)
        }
    }
}

/// The lines of a text: split at line feeds, trimmed, blank ones dropped.
/// A carriage return before a line feed is white space, so it goes with the
/// trimming.
pub open spec fn filtered_lines(s: Seq<char>) -> Seq<Seq<char>> {
    kept(split_lf(s))
}

/// The character contents of each string.
pub open spec fn views(v: Seq<String>) -> Seq<Seq<char>> {
    v.map_values(|l: String| l@)
}

pub proof fn lemma_split_lf_nonempty(s: Seq<char>)
    ensures
        split_lf(s).len() >= 1,
    decreases s.len(),
{
    if s.len() > 0 {
        lemma_split_lf_nonempty(s.drop_last());
    }
}

/// Every kept line is non-empty and trimmed.
pub proof fn lemma_kept_trimmed(pieces: Seq<Seq<char>>)
    ensures
        forall|i: int|
            0 <= i < kept(pieces).len() ==> #[trigger] kept(pieces)[i].len() > 0 && trim(
                kept(pieces)[i],
            ) == kept(pieces)[i],
    decreases pieces.len(),
{
    if pieces.len() > 0 {
        let rest = kept(pieces.drop_last());
        lemma_kept_trimmed(pieces.drop_last());
        lemma_trim_idempotent(pieces.last());
        assert forall|i: int| 0 <= i < kept(pieces).len() implies #[trigger] kept(
            pieces,
        )[i].len() > 0 && trim(kept(pieces)[i]) == kept(pieces)[i] by {
            if i < rest.len() {
                assert(kept(pieces)[i] == rest[i]);
            }
        }
    }
}

pub proof fn lemma_trim_start_idempotent(s: Seq<char>)
    ensures
        trim_start(trim_start(s)) == trim_start(s),
        trim_start(s).len() > 0 ==> !white_space(trim_start(s)[0]),
    decreases s.len(),
{
    if s.len() > 0 && white_space(s[0]) {
        lemma_trim_start_idempotent(s.drop_first());
    }
}

/// Trimming the end keeps a text's first character unless nothing is left.
proof fn lemma_trim_end_prefix(s: Seq<char>)
    ensures
        trim_end(s).len() <= s.len(),
        trim_end(s) == s.subrange(0, trim_end(s).len() as int),
        trim_end(s).len() > 0 ==> !white_space(trim_end(s).last()),
        trim_end(trim_end(s)) == trim_end(s),
    decreases s.len(),
{
    if s.len() > 0 && white_space(s.last()) {
        lemma_trim_end_prefix(s.drop_last());
        assert(s.drop_last().subrange(0, trim_end(s).len() as int) =~= s.subrange(
            0,
            trim_end(s).len() as int,
        ));
    } else {
        assert(s.subrange(0, s.len() as int) =~= s);
    }
}

pub proof fn lemma_trim_idempotent(s: Seq<char>)
    ensures
        trim(trim(s)) == trim(s),
{
    let a = trim_start(s);
    lemma_trim_start_idempotent(s);
    lemma_trim_end_prefix(a);
    let b = trim_end(a);
    // b starts where a does, so its start is not white space
    if b.len() > 0 {
        assert(b[0] == a[0]);
    }
    assert(trim_start(b) == b);
}

/// The trimmed contents of `cur`, as a new string.
pub(crate) fn trimmed(cur: &Vec<char>) -> (r: String)
    ensures
        r@ == trim(cur@),
{
    let n = cur.len();
    let mut i: usize = 0;
    assert(cur@.subrange(0, n as int) =~= cur@);
    while i < n && is_whitespace(cur[i])
        invariant
            n == cur@.len(),
            i <= n,
            trim_start(cur@) == trim_start(cur@.subrange(i as int, n as int)),
        decreases n - i,
    {
        assert(cur@.subrange(i as int, n as int).drop_first() =~= cur@.subrange(
            i as int + 1,
            n as int,
        ));
        i = i + 1;
    }
    let ghost a = cur@.subrange(i as int, n as int);
    assert(trim_start(a) == a);
    let mut j: usize = n;
    while j > i && is_whitespace(cur[j - 1])
        invariant
            i <= j <= n,
            n == cur@.len(),
            a == cur@.subrange(i as int, n as int),
            trim_end(a) == trim_end(cur@.subrange(i as int, j as int)),
        decreases j,
    {
        assert(cur@.subrange(i as int, j as int).drop_last() =~= cur@.subrange(
            i as int,
            j as int - 1,
        ));
        j = j - 1;
    }
    let mut r = String::new();
    let mut k: usize = i;
    while k < j
        invariant
            i <= k <= j <= n,
            n == cur@.len(),
            r@ == cur@.subrange(i as int, k as int),
        decreases j - k,
    {
        push_char(&mut r, cur[k]);
        assert(cur@.subrange(i as int, k as int + 1) =~= cur@.subrange(i as int, k as int).push(
            cur@[k as int],
        ));
        k = k + 1;
    }
    r
}

/// The lines of `input`: the pieces between line feeds, each trimmed of white
/// space, blank ones dropped, in input order.
pub fn filter_lines(input: &str) -> (r: Vec<String>)
    ensures
        views(r@) == filtered_lines(input@),
{
    broadcast use vstd::string::group_string_axioms;

    let mut chars = input.chars();
    let mut out: Vec<String> = Vec::new();
    let mut cur: Vec<char> = Vec::new();
    let ghost mut seen: Seq<char> = Seq::empty();
    let ghost mut done: Seq<Seq<char>> = Seq::empty();
    assert(seen + chars.remaining() =~= input@);
    loop
        invariant
            seen + chars.remaining() == input@,
            split_lf(seen) == done.push(cur@),
            views(out@) == kept(done),
        ensures
            seen == input@,
            split_lf(seen) == done.push(cur@),
            views(out@) == kept(done),
        decreases input@.len() - seen.len(),
    {
        match chars.next() {
            None => {
                assert(seen =~= input@);
                break;
            },
            Some(c) => {
                proof {
                    assert(seen.push(c) + chars.remaining() =~= input@);
                    assert(seen.push(c).drop_last() =~= seen);
                    lemma_split_lf_nonempty(seen);
                }
                if c == '\n' {
                    let t = trimmed(&cur);
                    proof {
                        assert(done.push(cur@).drop_last() =~= done);
                    }
                    if !t.as_str().is_empty() {
                        out.push(t);
                        assert(views(out@) =~= kept(done.push(cur@)));
                    } else {
                        assert(t@.len() == 0);
                    }
                    proof {
                        done = done.push(cur@);
                    }
                    cur = Vec::new();
                    proof {
                        assert(split_lf(seen.push(c)) =~= done.push(cur@));
                    }
                } else {
                    cur.push(c);
                    proof {
                        assert(split_lf(seen.push(c)) =~= done.push(cur@));
                    }
                }
                proof {
                    seen = seen.push(c);
                }
            },
        }
    }
    let t = trimmed(&cur);
    proof {
        assert(done.push(cur@).drop_last() =~= done);
    }
    if !t.as_str().is_empty() {
        out.push(t);
        assert(views(out@) =~= kept(done.push(cur@)));
    } else {
        assert(t@.len() == 0);
    }
    out
}

} // verus!
