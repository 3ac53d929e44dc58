use vstd::arithmetic::div_mod::{lemma_fundamental_div_mod, lemma_fundamental_div_mod_converse};
use vstd::multiset::Multiset;
use vstd::prelude::*;

use crate::grouper::{grouped, GroupError};
use crate::grouping::{block_len, join_lf, lemma_position, paired, paired_line};
use crate::text::{
    filtered_lines, kept, lemma_kept_trimmed, split_lf, trim, trim_end, trim_start,
};

verus! {

/// `s` holds no line feed.
pub open spec fn no_lf(s: Seq<char>) -> bool {
    forall|k: int| 0 <= k < s.len() ==> s[k] != '\n'
}

/// Every line in `ls` holds no line feed.
pub open spec fn all_no_lf(ls: Seq<Seq<char>>) -> bool {
    forall|i: int| 0 <= i < ls.len() ==> no_lf(#[trigger] ls[i])
}

proof fn lemma_split_lf_pieces(s: Seq<char>)
    ensures
        split_lf(s).len() >= 1,
        all_no_lf(split_lf(s)),
    decreases s.len(),
{
    if s.len() > 0 {
        lemma_split_lf_pieces(s.drop_last());
        let p = split_lf(s.drop_last());
        if s.last() != '\n' {
            let x = p.last().push(s.last());
            assert(no_lf(p[p.len() - 1]));
            assert forall|k: int| 0 <= k < x.len() implies x[k] != '\n' by {
                if k < p.last().len() {
                    assert(x[k] == p[p.len() - 1][k]);
                }
            }
            assert forall|i: int| 0 <= i < split_lf(s).len() implies no_lf(
                #[trigger] split_lf(s)[i],
            ) by {
                if i < p.len() - 1 {
                    assert(split_lf(s)[i] == p[i]);
                }
            }
        } else {
            assert forall|i: int| 0 <= i < split_lf(s).len() implies no_lf(
                #[trigger] split_lf(s)[i],
            ) by {
                if i < p.len() {
                    assert(split_lf(s)[i] == p[i]);
                }
            }
        }
    }
}

proof fn lemma_trim_no_lf(s: Seq<char>)
    requires
        no_lf(s),
    ensures
        no_lf(trim_start(s)),
        no_lf(trim_end(s)),
    decreases s.len(),
{
    if s.len() > 0 {
        let a = s.drop_first();
        let b = s.drop_last();
        assert forall|k: int| 0 <= k < a.len() implies a[k] != '\n' by {
            assert(a[k] == s[k + 1]);
        }
        assert forall|k: int| 0 <= k < b.len() implies b[k] != '\n' by {
            assert(b[k] == s[k]);
        }
        lemma_trim_no_lf(a);
        lemma_trim_no_lf(b);
    }
}

proof fn lemma_kept_no_lf(pieces: Seq<Seq<char>>)
    requires
        all_no_lf(pieces),
    ensures
        all_no_lf(kept(pieces)),
    decreases pieces.len(),
{
    if pieces.len() > 0 {
        let init = pieces.drop_last();
        assert forall|i: int| 0 <= i < init.len() implies no_lf(#[trigger] init[i]) by {
            assert(init[i] == pieces[i]);
        }
        lemma_kept_no_lf(init);
        assert(no_lf(pieces[pieces.len() - 1]));
        lemma_trim_no_lf(pieces.last());
        lemma_trim_no_lf(trim_start(pieces.last()));
        let rest = kept(init);
        assert forall|i: int| 0 <= i < kept(pieces).len() implies no_lf(
            #[trigger] kept(pieces)[i],
        ) by {
            if i < rest.len() {
                assert(kept(pieces)[i] == rest[i]);
            }
        }
    }
}

/// The lines of a text hold no line feed, are not empty, and are trimmed.
pub proof fn lemma_filtered_lines(s: Seq<char>)
    ensures
        all_no_lf(filtered_lines(s)),
        forall|i: int|
            0 <= i < filtered_lines(s).len() ==> #[trigger] filtered_lines(s)[i].len() > 0 && trim(
                filtered_lines(s)[i],
            ) == filtered_lines(s)[i],
{
    lemma_split_lf_pieces(s);
    lemma_kept_no_lf(split_lf(s));
    lemma_kept_trimmed(split_lf(s));
}

/// Appending text without a line feed extends the last piece.
proof fn lemma_split_append(t: Seq<char>, b: Seq<char>)
    requires
        no_lf(b),
    ensures
        split_lf(t).len() >= 1,
        split_lf(t + b) == split_lf(t).update(
            split_lf(t).len() - 1,
            split_lf(t).last() + b,
        ),
    decreases b.len(),
{
    lemma_split_lf_pieces(t);
    let st = split_lf(t);
    if b.len() == 0 {
        assert(t + b =~= t);
        assert(st.update(st.len() - 1, st.last() + b) =~= st);
    } else {
        let b0 = b.drop_last();
        assert forall|k: int| 0 <= k < b0.len() implies b0[k] != '\n' by {
            assert(b0[k] == b[k]);
        }
        lemma_split_append(t, b0);
        assert((t + b).drop_last() =~= t + b0);
        assert((t + b).last() == b[b.len() - 1]);
        let p = split_lf(t + b0);
        assert((st.last() + b0).push(b.last()) =~= st.last() + b);
        assert(p.update(p.len() - 1, p.last().push(b.last())) =~= st.update(
            st.len() - 1,
            st.last() + b,
        ));
    }
}

/// Splitting lines joined by line feeds gives the lines back, when there is
/// at least one and none holds a line feed.
pub proof fn lemma_split_join(ls: Seq<Seq<char>>)
    requires
        ls.len() >= 1,
        all_no_lf(ls),
    ensures
        split_lf(join_lf(ls)) == ls,
    decreases ls.len(),
{
    if ls.len() == 1 {
        assert(no_lf(ls[0]));
        lemma_split_append(Seq::empty(), ls[0]);
        assert(Seq::<char>::empty() + ls[0] =~= ls[0]);
        assert(split_lf(Seq::empty()) =~= seq![Seq::<char>::empty()]);
        assert(seq![Seq::<char>::empty()].update(0, Seq::<char>::empty() + ls[0]) =~= ls);
    } else {
        let init = ls.drop_last();
        assert forall|i: int| 0 <= i < init.len() implies no_lf(#[trigger] init[i]) by {
            assert(init[i] == ls[i]);
        }
        lemma_split_join(init);
        let t = join_lf(init) + seq!['\n'];
        assert(t.drop_last() =~= join_lf(init));
        assert(split_lf(t) == init.push(Seq::empty()));
        assert(no_lf(ls[ls.len() - 1]));
        lemma_split_append(t, ls.last());
        assert(Seq::<char>::empty() + ls.last() =~= ls.last());
        assert(init.push(Seq::empty()).update(init.len() as int, Seq::<char>::empty() + ls.last())
            =~= ls);
    }
}

/// Where output line `k` draws from, for `n` lines in groups of `m`: a group
/// `g` within range, and a place within that group's block.
proof fn lemma_paired_index(n: nat, m: nat, k: int)
    requires
        m >= 2,
        n % m == 0,
        0 <= k < (n / m) * block_len(m),
    ensures
        0 <= k / block_len(m) as int,
        (k / block_len(m) as int) * m + m <= n,
        0 <= (k % block_len(m) as int) < block_len(m),
        (k % block_len(m) as int) / 3 < m - 1,
{
    let b = block_len(m) as int;
    let q = (n / m) as int;
    lemma_fundamental_div_mod(k, b);
    lemma_fundamental_div_mod(n as int, m as int);
    let g = k / b;
    let r = k % b;
    assert(0 <= g && g < q) by (nonlinear_arith)
        requires k == b * g + r, 0 <= r < b, 0 <= k < q * b, b > 0;
    assert(g * m + m <= n) by (nonlinear_arith)
        requires g + 1 <= q, n == m * q + 0, m > 0;
    assert(r / 3 < m - 1) by (nonlinear_arith)
        requires 0 <= r < b, b == 3 * (m - 1);
}

/// The output lines of a successful grouping hold no line feed.
proof fn lemma_paired_no_lf(ls: Seq<Seq<char>>, m: nat)
    requires
        m >= 2,
        ls.len() % m == 0,
        all_no_lf(ls),
    ensures
        all_no_lf(paired(ls, m)),
{
    assert forall|k: int| 0 <= k < paired(ls, m).len() implies no_lf(#[trigger] paired(ls, m)[k]) by {
        lemma_paired_index(ls.len(), m, k);
    }
}

/// The output of a successful grouping of at least one line, split at line
/// feeds, gives the blocks of output lines back.
pub proof fn lemma_output_lines(s: Seq<char>, m: nat)
    requires
        grouped(s, m) is Ok,
        filtered_lines(s).len() > 0,
    ensures
        split_lf(grouped(s, m)->Ok_0) == paired(filtered_lines(s), m),
{
    let ls = filtered_lines(s);
    let n = ls.len();
    lemma_filtered_lines(s);
    lemma_paired_no_lf(ls, m);
    lemma_fundamental_div_mod(n as int, m as int);
    assert((n / m) * block_len(m) >= 1) by (nonlinear_arith)
        requires n == m * (n / m) + 0, n > 0, m >= 2, block_len(m) == 3 * (m - 1);
    lemma_split_join(paired(ls, m));
}

/// A text made of the given lines: each on its own, joined by line feeds.
pub open spec fn normalize(s: Seq<char>) -> Seq<char> {
    join_lf(filtered_lines(s))
}

/// Shape: a successful grouping of `n` lines, `n` above zero, split at line
/// feeds, has `3 * (n - n / m)` pieces.
pub proof fn law_shape(s: Seq<char>, m: nat)
    requires
        grouped(s, m) is Ok,
        filtered_lines(s).len() > 0,
    ensures
        split_lf(grouped(s, m)->Ok_0).len() == 3 * (filtered_lines(s).len() - filtered_lines(
            s,
        ).len() / m),
{
    let n = filtered_lines(s).len();
    lemma_output_lines(s, m);
    lemma_fundamental_div_mod(n as int, m as int);
    assert((n / m) * block_len(m) == 3 * (n - n / m)) by (nonlinear_arith)
        requires n == m * (n / m) + 0, m >= 2, block_len(m) == 3 * (m - 1);
}

/// Anchor position: in the block of each group, the second of every three
/// output lines is the group's last line.
pub proof fn law_anchor_position(s: Seq<char>, m: nat, g: int, i: int)
    requires
        grouped(s, m) is Ok,
        0 <= g < filtered_lines(s).len() / m,
        0 <= i < m - 1,
    ensures
        g * block_len(m) + 3 * i + 1 < split_lf(grouped(s, m)->Ok_0).len(),
        split_lf(grouped(s, m)->Ok_0)[g * block_len(m) + 3 * i + 1] == filtered_lines(s)[g * m
            + m - 1],
{
    let ls = filtered_lines(s);
    let n = ls.len();
    let b = block_len(m) as int;
    assert(n > 0) by {
        if n == 0 {
            assert(n / m == 0);
        }
    }
    lemma_output_lines(s, m);
    assert(g * b + 3 * i + 1 < (n / m) * b) by (nonlinear_arith)
        requires g + 1 <= n / m, 0 <= i < m - 1, b == 3 * (m - 1);
    lemma_position(m, g, i, 1);
}

/// Order: the output lines of group `p` are exactly the `p`-th block, the
/// output of that group alone, so every line of a group comes before every
/// line of a later group.
pub proof fn law_order(s: Seq<char>, m: nat, p: int)
    requires
        grouped(s, m) is Ok,
        0 <= p < filtered_lines(s).len() / m,
    ensures
        (p + 1) * block_len(m) <= split_lf(grouped(s, m)->Ok_0).len(),
        split_lf(grouped(s, m)->Ok_0).subrange(p * block_len(m), (p + 1) * block_len(m))
            == paired(filtered_lines(s).subrange(p * m, (p + 1) * m), m),
{
    let ls = filtered_lines(s);
    let n = ls.len();
    let b = block_len(m) as int;
    assert(n > 0) by {
        if n == 0 {
            assert(n / m == 0);
        }
    }
    lemma_output_lines(s, m);
    let out = split_lf(grouped(s, m)->Ok_0);
    assert((p + 1) * b <= (n / m) * b) by (nonlinear_arith)
        requires p + 1 <= n / m, b >= 0;
    assert((p + 1) * b == p * b + b) by (nonlinear_arith);
    assert((p + 1) * m == p * m + m) by (nonlinear_arith);
    lemma_fundamental_div_mod(n as int, m as int);
    assert(p * m + m <= n) by (nonlinear_arith)
        requires p + 1 <= n / m, n == m * (n / m) + 0, m > 0;
    let grp = ls.subrange(p * m, p * m + m);
    lemma_fundamental_div_mod_converse(m as int, m as int, 1, 0);
    assert(grp.len() / m == 1);
    let one = paired(grp, m);
    let here = out.subrange(p * b, p * b + b);
    assert forall|j: int| 0 <= j < b implies here[j] == one[j] by {
        lemma_fundamental_div_mod_converse(p * b + j, b, p, j);
        lemma_fundamental_div_mod_converse(j, b, 0, j);
        lemma_fundamental_div_mod(j, 3);
        assert(j / 3 < m - 1) by (nonlinear_arith)
            requires 0 <= j < b, b == 3 * (m - 1), j == 3 * (j / 3) + j % 3, 0 <= j % 3 < 3;
    }
    assert(here =~= one);
}

/// Rejection: a group size below 2 is refused first; otherwise a line count
/// that is not a multiple of the size is refused.
pub proof fn law_rejection(s: Seq<char>, m: nat)
    requires
        m < 2 || filtered_lines(s).len() % m != 0,
    ensures
        grouped(s, m) is Err,
        m < 2 ==> grouped(s, m) == Err::<Seq<char>, GroupError>(GroupError::GroupSizeTooSmall),
        m >= 2 ==> grouped(s, m) == Err::<Seq<char>, GroupError>(
            GroupError::LineCountNotMultiple,
        ),
{
}

/// The empty text has no lines.
proof fn lemma_empty_text()
    ensures
        filtered_lines(Seq::empty()) == Seq::<Seq<char>>::empty(),
{
    let e = Seq::<char>::empty();
    let p = seq![e];
    assert(split_lf(e) == p);
    assert(p.drop_last() =~= Seq::<Seq<char>>::empty());
    assert(kept(p.drop_last()) == Seq::<Seq<char>>::empty());
    assert(p.last() == e);
    assert(trim_start(e) == e);
    assert(trim_end(e) == e);
    assert(trim(p.last()).len() == 0);
    assert(kept(p) == kept(p.drop_last()));
}

/// Empty: grouping the empty text by any valid size gives the empty text.
pub proof fn law_empty(m: nat)
    requires
        m >= 2,
    ensures
        grouped(Seq::empty(), m) == Ok::<Seq<char>, GroupError>(Seq::empty()),
{
    lemma_empty_text();
    let none = Seq::<Seq<char>>::empty();
    assert(none.len() / m == 0);
    assert(paired(none, m) =~= none);
}

/// Trimmed lines that are not empty are kept as they are.
proof fn lemma_kept_clean(ls: Seq<Seq<char>>)
    requires
        forall|i: int| 0 <= i < ls.len() ==> #[trigger] ls[i].len() > 0 && trim(ls[i]) == ls[i],
    ensures
        kept(ls) == ls,
    decreases ls.len(),
{
    if ls.len() > 0 {
        let init = ls.drop_last();
        assert forall|i: int| 0 <= i < init.len() implies #[trigger] init[i].len() > 0 && trim(
            init[i],
        ) == init[i] by {
            assert(init[i] == ls[i]);
        }
        lemma_kept_clean(init);
        assert(ls[ls.len() - 1].len() > 0);
        assert(init.push(ls.last()) =~= ls);
    }
}

/// Trimming first changes nothing: grouping a text gives what grouping its
/// trimmed non-blank lines, joined by line feeds, gives.
pub proof fn law_trim_invariant(s: Seq<char>, m: nat)
    ensures
        filtered_lines(normalize(s)) == filtered_lines(s),
        grouped(s, m) == grouped(normalize(s), m),
{
    let ls = filtered_lines(s);
    lemma_filtered_lines(s);
    if ls.len() == 0 {
        lemma_empty_text();
    } else {
        lemma_split_join(ls);
        lemma_kept_clean(ls);
    }
}

/// The non-empty lines of `ls`, in order.
pub open spec fn nonblank(ls: Seq<Seq<char>>) -> Seq<Seq<char>> {
    ls.filter(|l: Seq<char>| l.len() > 0)
}

/// `k` copies of the line `a`.
pub open spec fn copies(a: Seq<char>, k: nat) -> Multiset<Seq<char>>
    decreases k,
{
    if k == 0 {
        Multiset::empty()
    } else {
        copies(a, (k - 1) as nat).insert(a)
    }
}

/// What one group `g` of `m` lines puts in the output, blanks aside: each
/// line but the anchor once, and the anchor `m - 1` times.
pub open spec fn group_weight(g: Seq<Seq<char>>, m: nat) -> Multiset<Seq<char>> {
    g.take(m - 1).to_multiset().add(copies(g[m - 1], (m - 1) as nat))
}

/// What the groups of `m` lines in `ls` put in the output together, blanks
/// aside.
pub open spec fn weight(ls: Seq<Seq<char>>, m: nat) -> Multiset<Seq<char>>
    decreases ls.len(),
{
    if m < 2 || ls.len() < m {
        Multiset::empty()
    } else {
        group_weight(ls.take(m as int), m).add(weight(ls.skip(m as int), m))
    }
}

/// Appending a line adds it to the non-empty lines when it is not empty.
proof fn lemma_nonblank_push(ls: Seq<Seq<char>>, x: Seq<char>)
    ensures
        nonblank(ls.push(x)) == if x.len() > 0 {
            nonblank(ls).push(x)
        } else {
            nonblank(ls)
        },
{
    reveal(Seq::filter);
    let pred = |l: Seq<char>| l.len() > 0;
    let lx = ls.push(x);
    assert(lx.drop_last() =~= ls);
    assert(lx.last() == x);
    assert(lx.filter(pred) == if pred(x) {
        ls.filter(pred).push(x)
    } else {
        ls.filter(pred)
    });
    assert(nonblank(lx) == lx.filter(pred));
}

/// No line, or one empty line, has no non-empty lines.
proof fn lemma_nothing_kept(ls: Seq<Seq<char>>)
    requires
        ls.len() == 0 || (ls.len() == 1 && ls[0].len() == 0),
    ensures
        nonblank(ls).to_multiset() =~= Multiset::empty(),
{
    broadcast use vstd::seq_lib::group_to_multiset_ensures;

    reveal(Seq::filter);
    let e = Seq::<Seq<char>>::empty();
    if ls.len() == 1 {
        lemma_nonblank_push(e, ls[0]);
        assert(e.push(ls[0]) =~= ls);
    }
    assert(nonblank(e) =~= e);
    assert(nonblank(ls) =~= e);
    assert forall|a: Seq<char>| e.to_multiset().count(a) == 0 by {
        assert(!e.contains(a));
    }
}

/// The number of output lines for `n` lines in groups of `m`.
proof fn lemma_paired_len(ls: Seq<Seq<char>>, m: nat, q: int)
    requires
        m >= 2,
        ls.len() == q * m,
        q >= 0,
    ensures
        paired(ls, m).len() == q * block_len(m),
{
    lemma_fundamental_div_mod_converse(ls.len() as int, m as int, q, 0);
}

/// The output lines of several groups are those of the first group followed
/// by those of the rest.
proof fn lemma_paired_split(ls: Seq<Seq<char>>, m: nat)
    requires
        m >= 2,
        ls.len() % m == 0,
        ls.len() >= m,
    ensures
        ls.skip(m as int).len() % m == 0,
        paired(ls, m) == paired(ls.take(m as int), m) + paired(ls.skip(m as int), m),
{
    let n = ls.len() as int;
    let b = block_len(m) as int;
    let q = n / m as int;
    let head = ls.take(m as int);
    let tail = ls.skip(m as int);
    lemma_fundamental_div_mod(n, m as int);
    assert(q >= 1) by (nonlinear_arith)
        requires n == m * q + 0, n >= m, m > 0;
    assert(n - m == (q - 1) * m + 0) by (nonlinear_arith)
        requires n == m * q + 0;
    lemma_fundamental_div_mod_converse(n - m, m as int, q - 1, 0);
    lemma_fundamental_div_mod_converse(m as int, m as int, 1, 0);
    assert(q * b == b + (q - 1) * b) by (nonlinear_arith);
    let whole = paired(ls, m);
    let first = paired(head, m);
    let rest = paired(tail, m);
    assert(n == q * m) by (nonlinear_arith)
        requires n == m * q + 0;
    lemma_paired_len(ls, m, q);
    assert(head.len() == 1 * m);
    lemma_paired_len(head, m, 1);
    assert(tail.len() == (q - 1) * m);
    lemma_paired_len(tail, m, q - 1);
    assert(whole.len() == q * b);
    assert(first.len() == 1 * b);
    assert(rest.len() == (q - 1) * b);
    assert(whole.len() == first.len() + rest.len());
    assert forall|k: int| 0 <= k < whole.len() implies whole[k] == (first + rest)[k] by {
        if k < b {
            lemma_fundamental_div_mod_converse(k, b, 0, k);
            lemma_paired_index(m, m, k);
        } else {
            let k1 = k - b;
            lemma_paired_index((n - m) as nat, m, k1);
            lemma_fundamental_div_mod(k1, b);
            let g1 = k1 / b;
            let r1 = k1 % b;
            assert(k == (g1 + 1) * b + r1) by (nonlinear_arith)
                requires k1 == b * g1 + r1, k == k1 + b;
            lemma_fundamental_div_mod_converse(k, b, g1 + 1, r1);
            assert((g1 + 1) * m == g1 * m + m) by (nonlinear_arith);
        }
    }
    assert(whole =~= first + rest);
}

/// Output line `3 * i + x` of a single group is its line `i`, its anchor, or
/// a blank, as `x` is 0, 1 or 2.
proof fn lemma_first_block_line(g: Seq<Seq<char>>, m: nat, i: int, x: int)
    requires
        m >= 2,
        0 <= i < m - 1,
        0 <= x < 3,
    ensures
        x == 0 ==> paired_line(g, m, 3 * i + x) == g[i],
        x == 1 ==> paired_line(g, m, 3 * i + x) == g[m - 1],
        x == 2 ==> paired_line(g, m, 3 * i + x).len() == 0,
{
    lemma_position(m, 0, i, x);
    let gq = (3 * i + x) / block_len(m) as int;
    assert(gq == 0);
    assert(gq * m == 0) by (nonlinear_arith)
        requires gq == 0;
}

/// Within one block, the first `j` triples keep the first `j` lines of the
/// group and `j` copies of its anchor.
proof fn lemma_block_prefix(g: Seq<Seq<char>>, m: nat, j: nat)
    requires
        m >= 2,
        g.len() == m,
        forall|i: int| 0 <= i < g.len() ==> #[trigger] g[i].len() > 0,
        j <= m - 1,
    ensures
        nonblank(paired(g, m).take(3 * j as int)).to_multiset() =~= g.take(j as int).to_multiset().add(
            copies(g[m - 1], j),
        ),
    decreases j,
{
    broadcast use vstd::seq_lib::group_to_multiset_ensures;

    let blk = paired(g, m);
    lemma_paired_len(g, m, 1);
    if j == 0 {
        lemma_nothing_kept(blk.take(0));
        lemma_nothing_kept(g.take(0));
        assert(nonblank(g.take(0)) =~= g.take(0));
    } else {
        let i = (j - 1) as int;
        lemma_block_prefix(g, m, (j - 1) as nat);
        let s0 = blk.take(3 * i);
        let s1 = s0.push(blk[3 * i]);
        let s2 = s1.push(blk[3 * i + 1]);
        let s3 = s2.push(blk[3 * i + 2]);
        assert(blk.len() == block_len(m));
        assert(3 * i + 2 < block_len(m));
        assert(blk.take(3 * j as int) =~= s3);
        lemma_first_block_line(g, m, i, 0);
        lemma_first_block_line(g, m, i, 1);
        lemma_first_block_line(g, m, i, 2);
        assert(blk[3 * i] == g[i]);
        assert(blk[3 * i + 1] == g[m - 1]);
        assert(blk[3 * i + 2].len() == 0);
        assert(g[m - 1].len() > 0);
        assert(g[i].len() > 0);
        lemma_nonblank_push(s2, blk[3 * i + 2]);
        lemma_nonblank_push(s1, blk[3 * i + 1]);
        lemma_nonblank_push(s0, blk[3 * i]);
        assert(g.take(j as int) =~= g.take(i).push(g[i]));
    }
}

/// The non-empty output lines of one group are its lines but the anchor
/// once, and the anchor once for each of them.
proof fn lemma_block_weight(g: Seq<Seq<char>>, m: nat)
    requires
        m >= 2,
        g.len() == m,
        forall|i: int| 0 <= i < g.len() ==> #[trigger] g[i].len() > 0,
    ensures
        nonblank(paired(g, m)).to_multiset() == group_weight(g, m),
{
    lemma_block_prefix(g, m, (m - 1) as nat);
    lemma_paired_len(g, m, 1);
    assert(paired(g, m).take(3 * (m - 1)) =~= paired(g, m));
}

proof fn lemma_paired_weight(ls: Seq<Seq<char>>, m: nat)
    requires
        m >= 2,
        ls.len() % m == 0,
        forall|i: int| 0 <= i < ls.len() ==> #[trigger] ls[i].len() > 0,
    ensures
        nonblank(paired(ls, m)).to_multiset() == weight(ls, m),
    decreases ls.len(),
{
    if ls.len() == 0 {
        lemma_paired_len(ls, m, 0);
        lemma_nothing_kept(paired(ls, m));
    } else {
        assert(ls.len() >= m) by {
            if ls.len() < m {
                vstd::arithmetic::div_mod::lemma_small_mod(ls.len(), m);
            }
        }
        let head = ls.take(m as int);
        let tail = ls.skip(m as int);
        lemma_paired_split(ls, m);
        assert forall|i: int| 0 <= i < head.len() implies #[trigger] head[i].len() > 0 by {
            assert(head[i] == ls[i]);
        }
        assert forall|i: int| 0 <= i < tail.len() implies #[trigger] tail[i].len() > 0 by {
            assert(tail[i] == ls[i + m]);
        }
        lemma_block_weight(head, m);
        lemma_paired_weight(tail, m);
        let pred = |l: Seq<char>| l.len() > 0;
        Seq::filter_distributes_over_add(paired(head, m), paired(tail, m), pred);
        vstd::seq_lib::lemma_multiset_commutative(nonblank(paired(head, m)), nonblank(paired(tail, m)));
    }
}

/// Non-empty lines: the non-empty lines of a successful output are, as a
/// multiset, each group's lines but its anchor once each, and each group's
/// anchor once for every other line of the group.
pub proof fn law_nonblank_lines(s: Seq<char>, m: nat)
    requires
        grouped(s, m) is Ok,
    ensures
        nonblank(split_lf(grouped(s, m)->Ok_0)).to_multiset() == weight(filtered_lines(s), m),
{
    let ls = filtered_lines(s);
    lemma_filtered_lines(s);
    if ls.len() == 0 {
        let e = Seq::<char>::empty();
        lemma_paired_len(ls, m, 0);
        assert(paired(ls, m) =~= Seq::<Seq<char>>::empty());
        assert(split_lf(e) =~= seq![e]);
        lemma_nothing_kept(seq![e]);
    } else {
        lemma_output_lines(s, m);
        lemma_paired_weight(ls, m);
    }
}

} // verus!
