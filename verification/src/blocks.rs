use vstd::prelude::*;
use crate::codec::{lex_lt, lex_le, lemma_lex_total, lemma_lt_le_trans, lemma_le_lt_trans,
    lemma_le_trans};
use vstd::arithmetic::div_mod::{lemma_fundamental_div_mod, lemma_fundamental_div_mod_converse};
use vstd::arithmetic::mul::lemma_mul_inequality;

verus! {

/// Number of blocks of length l needed to cover a text of length n: ceil(n / l).
pub open spec fn block_count(n: int, l: int) -> int {
    (n + l - 1) / l
}

/// The i-th block of the text: the segment [i*l, (i+1)*l), truncated at the
/// end of the text, so the final block may be shorter than l.
pub open spec fn block_of(text: Seq<u8>, l: int, i: int) -> Seq<u8> {
    text.subrange(
        i * l,
        if (i + 1) * l <= text.len() {
            (i + 1) * l
        } else {
            text.len() as int
        },
    )
}

/// p lists each block index in 0..n exactly once.
pub open spec fn is_perm_of(p: Seq<usize>, n: int) -> bool {
    &&& p.len() == n
    &&& p.no_duplicates()
    &&& forall|j: int| 0 <= j < p.len() ==> (#[trigger] p[j]) < n
}

/// The blocks listed by p appear in non-decreasing lexicographic order.
pub open spec fn perm_sorted(text: Seq<u8>, l: int, p: Seq<usize>) -> bool {
    forall|i: int, j: int|
        0 <= i < j < p.len() ==> lex_le(
            block_of(text, l, #[trigger] p[i] as int),
            block_of(text, l, #[trigger] p[j] as int),
        )
}

/// b is the boundary of word u in the sorted permutation p: every block
/// before position b is lexicographically below u, none from b on is.
pub open spec fn is_boundary(text: Seq<u8>, l: int, p: Seq<usize>, u: Seq<u8>, b: int) -> bool {
    &&& 0 <= b <= p.len()
    &&& forall|j: int| 0 <= j < b ==> lex_lt(block_of(text, l, #[trigger] p[j] as int), u)
    &&& forall|j: int| b <= j < p.len() ==> !lex_lt(block_of(text, l, #[trigger] p[j] as int), u)
}

/// The boundary of u in p (uniquely determined when it exists).
pub open spec fn boundary_of(text: Seq<u8>, l: int, p: Seq<usize>, u: Seq<u8>) -> int {
    choose|b: int| is_boundary(text, l, p, u, b)
}

/// A word has at most one boundary in a given permutation.
pub proof fn lemma_boundary_unique(
    text: Seq<u8>,
    l: int,
    p: Seq<usize>,
    u: Seq<u8>,
    b1: int,
    b2: int,
)
    requires
        is_boundary(text, l, p, u, b1),
        is_boundary(text, l, p, u, b2),
    ensures
        b1 == b2,
{
    if b1 < b2 {
        assert(lex_lt(block_of(text, l, p[b1] as int), u));
    }
    if b2 < b1 {
        assert(lex_lt(block_of(text, l, p[b2] as int), u));
    }
}

/// In a sorted permutation every word has a boundary.
pub proof fn lemma_boundary_exists(text: Seq<u8>, l: int, p: Seq<usize>, u: Seq<u8>)
    requires
        perm_sorted(text, l, p),
    ensures
        is_boundary(text, l, p, u, boundary_of(text, l, p, u)),
    decreases p.len(),
{
    if p.len() == 0 {
        assert(is_boundary(text, l, p, u, 0));
    } else {
        let d = p.drop_last();
        assert(forall|i: int| 0 <= i < d.len() ==> d[i] == #[trigger] p[i]);
        assert(perm_sorted(text, l, d));
        lemma_boundary_exists(text, l, d, u);
        let b = boundary_of(text, l, d, u);
        let last_block = block_of(text, l, p[p.len() - 1] as int);
        if lex_lt(last_block, u) {
            // the last block is below u, so by sortedness all blocks are
            assert forall|j: int| 0 <= j < p.len() implies lex_lt(
                block_of(text, l, #[trigger] p[j] as int),
                u,
            ) by {
                if j < p.len() - 1 {
                    lemma_le_lt_trans(block_of(text, l, p[j] as int), last_block, u);
                }
            }
            assert(is_boundary(text, l, p, u, p.len() as int));
        } else {
            assert(is_boundary(text, l, p, u, b));
        }
    }
}

/// Boundaries are monotone in the word.
pub proof fn lemma_boundary_mono(
    text: Seq<u8>,
    l: int,
    p: Seq<usize>,
    u1: Seq<u8>,
    u2: Seq<u8>,
    b1: int,
    b2: int,
)
    requires
        is_boundary(text, l, p, u1, b1),
        is_boundary(text, l, p, u2, b2),
        lex_le(u1, u2),
    ensures
        b1 <= b2,
{
    if b2 < b1 {
        let blk = block_of(text, l, p[b2] as int);
        assert(lex_lt(blk, u1));
        lemma_lt_le_trans(blk, u1, u2);
    }
}

/// The set {0, 1, ..., n-1} of block indices.
pub open spec fn usize_range(n: int) -> Set<usize> {
    Set::new(|x: usize| 0 <= x < n)
}

pub proof fn lemma_usize_range_len(n: int)
    requires
        0 <= n <= usize::MAX,
    ensures
        usize_range(n).finite(),
        usize_range(n).len() == n,
    decreases n,
{
    if n == 0 {
        assert(usize_range(0) =~= Set::<usize>::empty());
    } else {
        lemma_usize_range_len(n - 1);
        assert(!usize_range(n - 1).contains((n - 1) as usize));
        assert(usize_range(n) =~= usize_range(n - 1).insert((n - 1) as usize));
    }
}

/// The block indices whose block is lexicographically below u.
pub open spec fn blocks_below(text: Seq<u8>, l: int, n: int, u: Seq<u8>) -> Set<usize> {
    Set::new(|x: usize| 0 <= x < n && lex_lt(block_of(text, l, x as int), u))
}

/// A permutation of 0..n contains every index below n.
pub proof fn lemma_perm_contains(p: Seq<usize>, n: int, x: usize)
    requires
        is_perm_of(p, n),
        n <= usize::MAX,
        0 <= x < n,
    ensures
        p.contains(x),
{
    p.unique_seq_to_set();
    lemma_usize_range_len(n);
    assert(p.to_set().subset_of(usize_range(n)));
    if !p.contains(x) {
        assert(!p.to_set().contains(x));
        assert(p.to_set().subset_of(usize_range(n).remove(x)));
        assert(usize_range(n).remove(x).len() == n - 1);
        vstd::set_lib::lemma_len_subset(p.to_set(), usize_range(n).remove(x));
    }
}

/// The boundary of u equals the number of block indices whose block lies
/// below u; in particular it does not depend on the permutation.
pub proof fn lemma_boundary_count(text: Seq<u8>, l: int, p: Seq<usize>, u: Seq<u8>, b: int)
    requires
        is_perm_of(p, p.len() as int),
        p.len() <= usize::MAX,
        is_boundary(text, l, p, u, b),
    ensures
        blocks_below(text, l, p.len() as int, u).finite(),
        b == blocks_below(text, l, p.len() as int, u).len(),
{
    let n = p.len() as int;
    let head = p.take(b);
    assert(head.no_duplicates()) by {
        assert(forall|i: int|
            0 <= i < head.len() ==> head[i] == #[trigger] p[i]);
    }
    head.unique_seq_to_set();
    assert(head.to_set() =~= blocks_below(text, l, n, u)) by {
        assert forall|x: usize| head.to_set().contains(x) implies blocks_below(
            text,
            l,
            n,
            u,
        ).contains(x) by {
            let j = choose|j: int| 0 <= j < head.len() && head[j] == x;
            assert(p[j] == x);
            assert(lex_lt(block_of(text, l, x as int), u));
        }
        assert forall|x: usize| blocks_below(text, l, n, u).contains(x) implies head.to_set()
            .contains(x) by {
            lemma_perm_contains(p, n, x);
            let j = choose|j: int| 0 <= j < p.len() && p[j] == x;
            if j >= b {
                assert(!lex_lt(block_of(text, l, p[j] as int), u));
            }
            assert(head[j] == x);
            assert(head.contains(x));
        }
    }
}

/// Ceiling division: how many blocks of size b cover a items.
pub fn rounded(a: usize, b: usize) -> (r: usize)
    requires
        b >= 1,
    ensures
        r == block_count(a as int, b as int),
{
    let q = a / b;
    let m = a % b;
    proof {
        lemma_fundamental_div_mod(a as int, b as int);
        if m == 0 {
            lemma_fundamental_div_mod_converse(a + b - 1, b as int, q as int, b - 1);
        } else {
            assert(a + b - 1 == (q as int + 1) * (b as int) + (m - 1)) by (nonlinear_arith)
                requires
                    a == (b as int) * (q as int) + (m as int),
            ;
            lemma_fundamental_div_mod_converse(a + b - 1, b as int, q as int + 1, m - 1);
        }
    }
    if m == 0 {
        q
    } else {
        proof {
            assert(q < a) by (nonlinear_arith)
                requires
                    a == (b as int) * (q as int) + (m as int),
                    m >= 1,
                    b >= 1,
                    q >= 0,
            ;
        }
        q + 1
    }
}

/// Block i exists (is nonempty) exactly when i*l < n.
pub proof fn lemma_block_index(n: int, l: int, i: int)
    requires
        n >= 0,
        l >= 1,
        i >= 0,
    ensures
        i < block_count(n, l) <==> i * l < n,
{
    let bc = block_count(n, l);
    lemma_fundamental_div_mod(n + l - 1, l);
    let rr = (n + l - 1) % l;
    assert(n + l - 1 == l * bc + rr);
    assert(0 <= rr < l);
    if i < bc {
        lemma_mul_inequality(i, bc - 1, l);
        assert((bc - 1) * l == bc * l - l) by (nonlinear_arith);
        assert(bc * l == l * bc) by (nonlinear_arith);
        assert(i * l <= bc * l - l);
    }
    if i * l < n && i >= bc {
        lemma_mul_inequality(bc, i, l);
        assert(bc * l == l * bc) by (nonlinear_arith);
        assert(i * l >= bc * l);
    }
}

/// After an equal prefix of length k, lexicographic order is decided by what
/// remains from position k on.
pub proof fn lemma_lex_skip(a: Seq<u8>, b: Seq<u8>, k: int)
    requires
        0 <= k <= a.len(),
        k <= b.len(),
        forall|m: int| 0 <= m < k ==> #[trigger] a[m] == b[m],
    ensures
        lex_lt(a, b) == lex_lt(a.skip(k), b.skip(k)),
    decreases k,
{
    if k == 0 {
        assert(a.skip(0) =~= a);
        assert(b.skip(0) =~= b);
    } else {
        assert(a.len() > 0 && b.len() > 0);
        assert(a[0] == b[0]);
        assert(lex_lt(a, b) == lex_lt(a.skip(1), b.skip(1)));
        assert(forall|m: int|
            0 <= m < k - 1 ==> #[trigger] a.skip(1)[m] == a[m + 1] && b.skip(1)[m] == b[m + 1]);
        lemma_lex_skip(a.skip(1), b.skip(1), k - 1);
        assert(a.skip(1).skip(k - 1) =~= a.skip(k));
        assert(b.skip(1).skip(k - 1) =~= b.skip(k));
    }
}

pub proof fn lemma_lex_at_index(a: Seq<u8>, b: Seq<u8>, k: int)
    requires
        0 <= k < a.len(),
        k < b.len(),
        forall|m: int| 0 <= m < k ==> #[trigger] a[m] == b[m],
        a[k] != b[k],
    ensures
        lex_lt(a, b) == (a[k] < b[k]),
{
    lemma_lex_skip(a, b, k);
    assert(a.skip(k)[0] == a[k]);
    assert(b.skip(k)[0] == b[k]);
}

pub proof fn lemma_lex_at_end(a: Seq<u8>, b: Seq<u8>, k: int)
    requires
        0 <= k,
        k == if a.len() < b.len() {
            a.len() as int
        } else {
            b.len() as int
        },
        forall|m: int| 0 <= m < k ==> #[trigger] a[m] == b[m],
    ensures
        lex_lt(a, b) == (a.len() < b.len()),
{
    lemma_lex_skip(a, b, k);
    if a.len() < b.len() {
        assert(a.skip(k).len() == 0);
        assert(b.skip(k).len() > 0);
    } else {
        assert(b.skip(k).len() == 0);
    }
}

/// Strict lexicographic comparison of the blocks at indices bi and bj.
pub fn block_lt_block(text: &Vec<u8>, l: usize, bi: usize, bj: usize) -> (r: bool)
    requires
        l >= 1,
        (bi as int) * (l as int) < text@.len(),
        (bj as int) * (l as int) < text@.len(),
    ensures
        r == lex_lt(block_of(text@, l as int, bi as int), block_of(text@, l as int, bj as int)),
{
    let n = text.len();
    proof {
        assert((bi as int) * (l as int) < n as int && (bj as int) * (l as int) < n as int);
    }
    let sa = bi * l;
    let sb = bj * l;
    let ra = n - sa;
    let rb = n - sb;
    let alen = if ra < l {
        ra
    } else {
        l
    };
    let blen = if rb < l {
        rb
    } else {
        l
    };
    let ba = Ghost(block_of(text@, l as int, bi as int));
    let bb = Ghost(block_of(text@, l as int, bj as int));
    proof {
        assert((bi as int + 1) * (l as int) == (bi as int) * (l as int) + l) by (nonlinear_arith);
        assert((bj as int + 1) * (l as int) == (bj as int) * (l as int) + l) by (nonlinear_arith);
        assert(ba@.len() == alen);
        assert(bb@.len() == blen);
        assert(forall|m: int| 0 <= m < alen ==> ba@[m] == #[trigger] text@[sa + m]);
        assert(forall|m: int| 0 <= m < blen ==> bb@[m] == #[trigger] text@[sb + m]);
    }
    let mut k: usize = 0;
    let kmax = if alen < blen {
        alen
    } else {
        blen
    };
    while k < kmax
        invariant
            0 <= k <= kmax,
            kmax == if alen < blen {
                alen as int
            } else {
                blen as int
            },
            alen <= l,
            blen <= l,
            sa + alen <= n,
            sb + blen <= n,
            n == text@.len(),
            ba@ == block_of(text@, l as int, bi as int),
            bb@ == block_of(text@, l as int, bj as int),
            ba@.len() == alen,
            bb@.len() == blen,
            forall|m: int| 0 <= m < alen ==> ba@[m] == #[trigger] text@[sa + m],
            forall|m: int| 0 <= m < blen ==> bb@[m] == #[trigger] text@[sb + m],
            forall|m: int| 0 <= m < k ==> #[trigger] ba@[m] == bb@[m],
        decreases kmax - k,
    {
        let ca = text[sa + k];
        let cb = text[sb + k];
        if ca != cb {
            proof {
                lemma_lex_at_index(ba@, bb@, k as int);
            }
            return ca < cb;
        }
        k += 1;
    }
    proof {
        lemma_lex_at_end(ba@, bb@, kmax as int);
    }
    alen < blen
}

/// Strict lexicographic comparison of the block at index bi against a word.
pub fn block_lt_word(text: &Vec<u8>, l: usize, bi: usize, w: &Vec<u8>) -> (r: bool)
    requires
        l >= 1,
        (bi as int) * (l as int) < text@.len(),
    ensures
        r == lex_lt(block_of(text@, l as int, bi as int), w@),
{
    let n = text.len();
    proof {
        assert((bi as int) * (l as int) < n as int);
    }
    let sa = bi * l;
    let ra = n - sa;
    let alen = if ra < l {
        ra
    } else {
        l
    };
    let blen = w.len();
    let ba = Ghost(block_of(text@, l as int, bi as int));
    proof {
        assert((bi as int + 1) * (l as int) == (bi as int) * (l as int) + l) by (nonlinear_arith);
        assert(ba@.len() == alen);
        assert(forall|m: int| 0 <= m < alen ==> ba@[m] == #[trigger] text@[sa + m]);
    }
    let mut k: usize = 0;
    let kmax = if alen < blen {
        alen
    } else {
        blen
    };
    while k < kmax
        invariant
            0 <= k <= kmax,
            kmax == if alen < blen {
                alen as int
            } else {
                blen as int
            },
            alen <= l,
            sa + alen <= n,
            n == text@.len(),
            blen == w@.len(),
            ba@ == block_of(text@, l as int, bi as int),
            ba@.len() == alen,
            forall|m: int| 0 <= m < alen ==> ba@[m] == #[trigger] text@[sa + m],
            forall|m: int| 0 <= m < k ==> #[trigger] ba@[m] == w@[m],
        decreases kmax - k,
    {
        let ca = text[sa + k];
        let cb = w[k];
        if ca != cb {
            proof {
                lemma_lex_at_index(ba@, w@, k as int);
            }
            return ca < cb;
        }
        k += 1;
    }
    proof {
        lemma_lex_at_end(ba@, w@, kmax as int);
    }
    alen < blen
}

/// Whether position j of p must still move left during insertion sort.
fn needs_swap(text: &Vec<u8>, l: usize, p: &Vec<usize>, j: usize) -> (r: bool)
    requires
        l >= 1,
        text@.len() >= 1,
        j < p@.len(),
        forall|x: int|
            0 <= x < p@.len() ==> (#[trigger] p@[x] as int) < block_count(
                text@.len() as int,
                l as int,
            ),
    ensures
        r == (j > 0 && lex_lt(
            block_of(text@, l as int, p@[j as int] as int),
            block_of(text@, l as int, p@[j - 1] as int),
        )),
{
    if j == 0 {
        return false;
    }
    proof {
        lemma_block_index(text@.len() as int, l as int, p@[j as int] as int);
        lemma_block_index(text@.len() as int, l as int, p@[j - 1] as int);
    }
    block_lt_block(text, l, p[j], p[j - 1])
}

/// Build the permutation array: the block indices 0..ceil(n/l), sorted in
/// non-decreasing lexicographic order of their block content (insertion sort,
/// stable, so equal blocks keep their original order).
pub fn build_perm(text: &Vec<u8>, l: usize) -> (p: Vec<usize>)
    requires
        l >= 1,
        text@.len() >= 1,
    ensures
        is_perm_of(p@, block_count(text@.len() as int, l as int)),
        perm_sorted(text@, l as int, p@),
{
    let n = text.len();
    let nb = rounded(n, l);
    proof {
        lemma_block_index(n as int, l as int, 0);
    }
    let mut p: Vec<usize> = Vec::new();
    let mut i: usize = 0;
    while i < nb
        invariant
            0 <= i <= nb,
            nb == block_count(n as int, l as int),
            n == text@.len(),
            p@.len() == i,
            forall|j: int| 0 <= j < i ==> #[trigger] p@[j] == j,
        decreases nb - i,
    {
        p.push(i);
        i += 1;
    }
    assert(p@.no_duplicates());
    assert(forall|j: int| 0 <= j < p@.len() ==> (#[trigger] p@[j] as int) < nb);
    let mut s: usize = 1;
    while s < nb
        invariant
            1 <= s <= nb,
            nb == block_count(n as int, l as int),
            n == text@.len(),
            l >= 1,
            n >= 1,
            p@.len() == nb,
            p@.no_duplicates(),
            forall|x: int| 0 <= x < p@.len() ==> (#[trigger] p@[x] as int) < nb,
            forall|x: int, y: int|
                0 <= x < y < s ==> lex_le(
                    block_of(text@, l as int, #[trigger] p@[x] as int),
                    block_of(text@, l as int, #[trigger] p@[y] as int),
                ),
        decreases nb - s,
    {
        let mut j: usize = s;
        while needs_swap(text, l, &p, j)
            invariant
                0 <= j <= s < nb,
                nb == block_count(n as int, l as int),
                n == text@.len(),
                l >= 1,
                n >= 1,
                p@.len() == nb,
                p@.no_duplicates(),
                forall|x: int| 0 <= x < p@.len() ==> (#[trigger] p@[x] as int) < nb,
                forall|x: int, y: int|
                    0 <= x < y <= s && y != j ==> lex_le(
                        block_of(text@, l as int, #[trigger] p@[x] as int),
                        block_of(text@, l as int, #[trigger] p@[y] as int),
                    ),
            decreases j,
        {
            let ghost q0 = p@;
            let tmp = p[j];
            let prev = p[j - 1];
            proof {
                lemma_lex_total(
                    block_of(text@, l as int, tmp as int),
                    block_of(text@, l as int, prev as int),
                );
            }
            p[j] = prev;
            p[j - 1] = tmp;
            proof {
                let q = p@;
                assert(q == q0.update(j as int, prev).update(j - 1, tmp));
                assert(q.no_duplicates()) by {
                    assert(forall|x: int|
                        0 <= x < q.len() && x != j && x != j - 1 ==> q[x] == #[trigger] q0[x]);
                    assert(q[j as int] == q0[j - 1] && q[j - 1] == q0[j as int]);
                }
                assert forall|x: int, y: int|
                    0 <= x < y <= s && y != j - 1 implies lex_le(
                    block_of(text@, l as int, (#[trigger] q[x]) as int),
                    block_of(text@, l as int, (#[trigger] q[y]) as int),
                ) by {
                    if y == j {
                        if x == j - 1 {
                            assert(q[x] == tmp && q[y] == prev);
                        } else {
                            assert(q[x] == q0[x] && q[y] == q0[j - 1]);
                        }
                    } else if x == j - 1 {
                        assert(q[x] == tmp && q[y] == q0[y]);
                        assert(tmp == q0[j as int]);
                    } else if x == j {
                        assert(q[x] == q0[j - 1] && q[y] == q0[y]);
                    } else {
                        assert(q[x] == q0[x] && q[y] == q0[y]);
                    }
                }
            }
            j -= 1;
        }
        proof {
            // after sifting, position j is ordered with its predecessors too
            assert forall|x: int, y: int| 0 <= x < y <= s implies lex_le(
                block_of(text@, l as int, (#[trigger] p@[x]) as int),
                block_of(text@, l as int, (#[trigger] p@[y]) as int),
            ) by {
                if y == j && j > 0 {
                    let bx = block_of(text@, l as int, p@[x] as int);
                    let bprev = block_of(text@, l as int, p@[j - 1] as int);
                    let bj = block_of(text@, l as int, p@[j as int] as int);
                    lemma_lex_total(bj, bprev);
                    if x < j - 1 {
                        lemma_le_trans(bx, bprev, bj);
                    }
                }
            }
        }
        s += 1;
    }
    p
}

} // verus!
