use vstd::arithmetic::div_mod::{lemma_fundamental_div_mod, lemma_fundamental_div_mod_converse};
use vstd::prelude::*;

use crate::text::{push_char, views};

verus! {

/// The number of output lines that one group of `m` lines gives: a pair and
/// a blank for each line but the anchor.
pub open spec fn block_len(m: nat) -> nat {
    3 * (m - 1) as nat
}

/// Output line `k` for lines `ls` in groups of `m`: it lies in the block of
/// group `k / block_len(m)`, and within that block every third line, from
/// the first, is the group's next line, every third, from the second, the
/// group's anchor (its last line), and every third, from the third, blank.
pub open spec fn paired_line(ls: Seq<Seq<char>>, m: nat, k: int) -> Seq<char> {
    let g = k / block_len(m) as int;
    let r = k % block_len(m) as int;
    if r % 3 == 0 {
        ls[g * m + r / 3]
    } else if r % 3 == 1 {
        ls[g * m + m - 1]
    } else {
        Seq::empty()
    }
}

/// The output lines for lines `ls` in groups of `m`: one block per group.
pub open spec fn paired(ls: Seq<Seq<char>>, m: nat) -> Seq<Seq<char>> {
    Seq::new((ls.len() / m) * block_len(m), |k: int| paired_line(ls, m, k))
}

/// The lines joined with one line feed between neighbours.
pub open spec fn join_lf(ls: Seq<Seq<char>>) -> Seq<char>
    decreases ls.len(),
{
    if ls.len() == 0 {
        Seq::empty()
    } else if ls.len() == 1 {
        ls[0]
    } else {
        join_lf(ls.drop_last()) + seq!['\n'] + ls.last()
    }
}

/// Output line `g * block_len(m) + 3 * i + j` lies in the block of group `g`,
/// at offset `3 * i + j`: the triple of line `i`, in place `j` of it.
pub proof fn lemma_position(m: nat, g: int, i: int, j: int)
    requires
        m >= 2,
        0 <= g,
        0 <= i < m - 1,
        0 <= j < 3,
    ensures
        (g * block_len(m) + 3 * i + j) / block_len(m) as int == g,
        (g * block_len(m) + 3 * i + j) % block_len(m) as int == 3 * i + j,
        (3 * i + j) / 3 == i,
        (3 * i + j) % 3 == j,
{
    let b = block_len(m) as int;
    lemma_fundamental_div_mod_converse(g * b + 3 * i + j, b, g, 3 * i + j);
    lemma_fundamental_div_mod_converse(3 * i + j, 3, i, j);
}

/// The output lines for `lines` in groups of `m`: for each group in order,
/// each line but the last, followed by the last and a blank.
pub fn pair_lines(lines: &Vec<String>, m: usize) -> (r: Vec<String>)
    requires
        m >= 2,
        lines@.len() % (m as nat) == 0,
    ensures
        views(r@) == paired(views(lines@), m as nat),
{
    let n = lines.len();
    let ghost ls = views(lines@);
    let ghost bl = block_len(m as nat) as int;
    let mut out: Vec<String> = Vec::new();
    let mut base: usize = 0;
    let ghost mut g: int = 0;
    while base < n
        invariant
            n == lines@.len(),
            ls == views(lines@),
            bl == block_len(m as nat),
            m >= 2,
            n % m == 0,
            0 <= g,
            base == g * m,
            base <= n,
            out@.len() == g * bl,
            forall|k: int| 0 <= k < out@.len() ==> #[trigger] out@[k]@ == paired_line(ls, m as nat, k),
        decreases n - base,
    {
        proof {
            let q = n as int / m as int;
            lemma_fundamental_div_mod(n as int, m as int);
            assert(n == q * m) by (nonlinear_arith)
                requires n == m * q + 0;
            assert(g < q) by (nonlinear_arith)
                requires g * m < q * m, m > 0;
            assert((g + 1) * m <= q * m) by (nonlinear_arith)
                requires g + 1 <= q, m > 0;
            assert((g + 1) * m == g * m + m) by (nonlinear_arith);
        }
        let last = base + m - 1;
        let mut i: usize = 0;
        while i < m - 1
            invariant
                n == lines@.len(),
                ls == views(lines@),
                bl == block_len(m as nat),
                m >= 2,
                0 <= g,
                base == g * m,
                base + m <= n,
                last == base + m - 1,
                i <= m - 1,
                out@.len() == g * bl + 3 * i,
                forall|k: int| 0 <= k < out@.len() ==> #[trigger] out@[k]@ == paired_line(ls, m as nat, k),
            decreases m - 1 - i,
        {
            let ghost k0 = out@.len() as int;
            out.push(lines[base + i].clone());
            out.push(lines[last].clone());
            out.push(String::new());
            proof {
                lemma_position(m as nat, g, i as int, 0);
                lemma_position(m as nat, g, i as int, 1);
                lemma_position(m as nat, g, i as int, 2);
                assert(out@[k0]@ == paired_line(ls, m as nat, k0));
                assert(out@[k0 + 1]@ == paired_line(ls, m as nat, k0 + 1));
                assert(out@[k0 + 2]@ == paired_line(ls, m as nat, k0 + 2));
            }
            i = i + 1;
        }
        proof {
            assert(g * bl + 3 * (m - 1) == (g + 1) * bl) by (nonlinear_arith)
                requires bl == 3 * (m - 1);
            g = g + 1;
        }
        base = base + m;
    }
    proof {
        assert(n == g * m + 0);
        lemma_fundamental_div_mod_converse(n as int, m as int, g, 0);
        assert(views(out@) =~= paired(ls, m as nat));
    }
    out
}

/// The lines joined with one line feed between neighbours, none before the
/// first or after the last.
pub fn join_lines(lines: &Vec<String>) -> (r: String)
    ensures
        r@ == join_lf(views(lines@)),
{
    let mut r = String::new();
    let mut i: usize = 0;
    while i < lines.len()
        invariant
            i <= lines@.len(),
            r@ == join_lf(views(lines@).take(i as int)),
        decreases lines@.len() - i,
    {
        let ghost before = views(lines@).take(i as int);
        let ghost after = views(lines@).take(i as int + 1);
        assert(after.drop_last() =~= before);
        if i > 0 {
            push_char(&mut r, '\n');
        }
        let line = &lines[i];
        let ghost r0 = r@;
        let chars = line.as_str();
        r.append(chars);
        proof {
            if i == 0 {
                assert(r@ =~= after[0]);
            } else {
                assert(r@ =~= join_lf(before) + seq!['\n'] + after.last());
            }
        }
        i = i + 1;
    }
    assert(views(lines@).take(lines@.len() as int) =~= views(lines@));
    r
}

} // verus!
