use vstd::prelude::*;

verus! {

/// The four alphabet symbols as byte values; their byte order A < C < G < T
/// is also their alphabet order.
pub const SYM_A: u8 = 65;

pub const SYM_C: u8 = 67;

pub const SYM_G: u8 = 71;

pub const SYM_T: u8 = 84;

pub open spec fn valid_sym(c: u8) -> bool {
    c == SYM_A || c == SYM_C || c == SYM_G || c == SYM_T
}

/// Base-4 digit of a symbol: A=0, C=1, G=2, T=3.
pub open spec fn sym_val(c: u8) -> nat {
    if c == SYM_A {
        0
    } else if c == SYM_C {
        1
    } else if c == SYM_G {
        2
    } else {
        3
    }
}

pub open spec fn valid_word(s: Seq<u8>) -> bool {
    forall|i: int| 0 <= i < s.len() ==> valid_sym(#[trigger] s[i])
}

pub open spec fn pow4(k: nat) -> nat
    decreases k,
{
    if k == 0 {
        1
    } else {
        4 * pow4((k - 1) as nat)
    }
}

/// Base-4 positional value of a word, most significant symbol first;
/// for a word of length k it lies in [0, 4^k).
pub open spec fn rank_of(s: Seq<u8>) -> nat
    decreases s.len(),
{
    if s.len() == 0 {
        0
    } else {
        rank_of(s.drop_last()) * 4 + sym_val(s.last())
    }
}

/// Strict lexicographic order on byte sequences; a strict prefix is smaller.
pub open spec fn lex_lt(a: Seq<u8>, b: Seq<u8>) -> bool
    decreases b.len(),
{
    if b.len() == 0 {
        false
    } else if a.len() == 0 {
        true
    } else if a[0] != b[0] {
        a[0] < b[0]
    } else {
        lex_lt(a.skip(1), b.skip(1))
    }
}

pub open spec fn lex_le(a: Seq<u8>, b: Seq<u8>) -> bool {
    !lex_lt(b, a)
}

pub open spec fn all_t(s: Seq<u8>) -> bool {
    forall|i: int| 0 <= i < s.len() ==> #[trigger] s[i] == SYM_T
}

/// The symbol after c in alphabet order (meaningful for c != T).
pub open spec fn succ_sym(c: u8) -> u8 {
    if c == SYM_A {
        SYM_C
    } else if c == SYM_C {
        SYM_G
    } else {
        SYM_T
    }
}

/// The lexicographic successor of a word of the same length: base-4 increment,
/// where the all-T word wraps around to the all-A word.
pub open spec fn next_word(s: Seq<u8>) -> Seq<u8>
    decreases s.len(),
{
    if s.len() == 0 {
        s
    } else if s.last() == SYM_T {
        next_word(s.drop_last()).push(SYM_A)
    } else {
        s.drop_last().push(succ_sym(s.last()))
    }
}

/// A word right-padded with the minimum symbol A to length l.
pub open spec fn pad_word(s: Seq<u8>, l: nat) -> Seq<u8> {
    s + Seq::new((l - s.len()) as nat, |i: int| SYM_A)
}

pub proof fn lemma_pow4_pos(k: nat)
    ensures
        pow4(k) >= 1,
    decreases k,
{
    if k > 0 {
        lemma_pow4_pos((k - 1) as nat);
    }
}

pub proof fn lemma_pow4_mono(j: nat, k: nat)
    requires
        j <= k,
    ensures
        pow4(j) <= pow4(k),
    decreases k,
{
    if j < k {
        lemma_pow4_mono(j, (k - 1) as nat);
    }
}

pub proof fn lemma_rank_bound(s: Seq<u8>)
    requires
        valid_word(s),
    ensures
        rank_of(s) < pow4(s.len()),
    decreases s.len(),
{
    if s.len() > 0 {
        assert(valid_word(s.drop_last())) by {
            assert(forall|i: int| 0 <= i < s.len() - 1 ==> s.drop_last()[i] == #[trigger] s[i]);
        }
        lemma_rank_bound(s.drop_last());
        assert(valid_sym(s.last()));
        assert(sym_val(s.last()) <= 3);
    }
}

/// The rank can also be read most-significant-digit first.
pub proof fn lemma_rank_first(s: Seq<u8>)
    requires
        s.len() >= 1,
    ensures
        rank_of(s) == sym_val(s[0]) * pow4((s.len() - 1) as nat) + rank_of(s.skip(1)),
    decreases s.len(),
{
    if s.len() == 1 {
        assert(s.drop_last() =~= s.skip(1));
        assert(s.drop_last().len() == 0);
        assert(rank_of(s.drop_last()) == 0);
        assert(rank_of(s.skip(1)) == 0);
        assert(s.last() == s[0]);
        assert(rank_of(s) == sym_val(s[0]));
        assert(pow4((s.len() - 1) as nat) == 1);
        assert(sym_val(s[0]) * pow4((s.len() - 1) as nat) == sym_val(s[0]) * 1);
        assert(sym_val(s[0]) * 1 == sym_val(s[0])) by (nonlinear_arith);
    } else {
        let d = s.drop_last();
        lemma_rank_first(d);
        assert(d.skip(1) =~= s.skip(1).drop_last());
        assert(s.skip(1).last() == s.last());
        assert(rank_of(s.skip(1)) == rank_of(s.skip(1).drop_last()) * 4 + sym_val(s.last()));
        let p = pow4((s.len() - 2) as nat);
        assert(pow4((s.len() - 1) as nat) == 4 * p);
        assert(rank_of(d) == sym_val(s[0]) * p + rank_of(d.skip(1)));
        assert(rank_of(s) == (sym_val(s[0]) * p + rank_of(d.skip(1))) * 4 + sym_val(s.last()));
        assert((sym_val(s[0]) * p + rank_of(d.skip(1))) * 4 == sym_val(s[0]) * (4 * p) + rank_of(
            d.skip(1),
        ) * 4) by (nonlinear_arith);
    }
}

/// Exactly one of lex_lt(a,b), lex_lt(b,a), a == b holds.
pub proof fn lemma_lex_total(a: Seq<u8>, b: Seq<u8>)
    ensures
        lex_lt(a, b) || lex_lt(b, a) || a == b,
        !(lex_lt(a, b) && lex_lt(b, a)),
        lex_lt(a, b) ==> a != b,
    decreases a.len() + b.len(),
{
    if b.len() == 0 {
        if a.len() == 0 {
            assert(a =~= b);
        }
    } else if a.len() == 0 {
    } else if a[0] != b[0] {
    } else {
        lemma_lex_total(a.skip(1), b.skip(1));
        if a.skip(1) == b.skip(1) {
            assert(a =~= b) by {
                assert(a.len() == b.len());
                assert(forall|i: int|
                    1 <= i < a.len() ==> #[trigger] a[i] == a.skip(1)[i - 1] && b[i] == b.skip(1)[i
                        - 1]);
            }
        }
        if a == b {
            assert(a.skip(1) == b.skip(1));
        }
    }
}

pub proof fn lemma_lex_trans(a: Seq<u8>, b: Seq<u8>, c: Seq<u8>)
    requires
        lex_lt(a, b),
        lex_lt(b, c),
    ensures
        lex_lt(a, c),
    decreases a.len() + b.len() + c.len(),
{
    if a.len() == 0 {
    } else {
        // a, b, c all nonempty here
        if a[0] == b[0] && b[0] == c[0] {
            lemma_lex_trans(a.skip(1), b.skip(1), c.skip(1));
        }
    }
}

/// lex_lt then lex_le gives lex_lt.
pub proof fn lemma_lt_le_trans(a: Seq<u8>, b: Seq<u8>, c: Seq<u8>)
    requires
        lex_lt(a, b),
        lex_le(b, c),
    ensures
        lex_lt(a, c),
{
    lemma_lex_total(b, c);
    if lex_lt(b, c) {
        lemma_lex_trans(a, b, c);
    }
}

/// lex_le then lex_lt gives lex_lt.
pub proof fn lemma_le_lt_trans(a: Seq<u8>, b: Seq<u8>, c: Seq<u8>)
    requires
        lex_le(a, b),
        lex_lt(b, c),
    ensures
        lex_lt(a, c),
{
    lemma_lex_total(a, b);
    if lex_lt(a, b) {
        lemma_lex_trans(a, b, c);
    }
}

pub proof fn lemma_le_trans(a: Seq<u8>, b: Seq<u8>, c: Seq<u8>)
    requires
        lex_le(a, b),
        lex_le(b, c),
    ensures
        lex_le(a, c),
{
    lemma_lex_total(a, b);
    lemma_lex_total(a, c);
    if lex_lt(c, a) {
        if lex_lt(a, b) {
            lemma_lex_trans(c, a, b);
        } else {
            assert(a == b || lex_lt(b, a));
        }
    }
}

/// On valid words of equal length, lexicographic order is rank order.
pub proof fn lemma_lex_lt_rank(a: Seq<u8>, b: Seq<u8>)
    requires
        valid_word(a),
        valid_word(b),
        a.len() == b.len(),
        lex_lt(a, b),
    ensures
        rank_of(a) < rank_of(b),
    decreases a.len(),
{
    lemma_rank_first(a);
    lemma_rank_first(b);
    let p = pow4((a.len() - 1) as nat);
    assert(valid_word(a.skip(1)) && valid_word(b.skip(1))) by {
        assert(forall|i: int|
            0 <= i < a.len() - 1 ==> a.skip(1)[i] == #[trigger] a[i + 1] && b.skip(1)[i] == b[i
                + 1]);
    }
    lemma_rank_bound(a.skip(1));
    lemma_rank_bound(b.skip(1));
    assert(pow4((a.len() - 1) as nat) == pow4(a.skip(1).len()));
    if a[0] != b[0] {
        assert(valid_sym(a[0]) && valid_sym(b[0]));
        assert(sym_val(a[0]) < sym_val(b[0]));
        assert(sym_val(a[0]) * p + pow4(a.skip(1).len()) <= sym_val(b[0]) * p) by {
            assert((sym_val(a[0]) + 1) * p <= sym_val(b[0]) * p) by (nonlinear_arith)
                requires
                    sym_val(a[0]) + 1 <= sym_val(b[0]),
                    p >= 0,
            ;
            assert((sym_val(a[0]) + 1) * p == sym_val(a[0]) * p + p) by (nonlinear_arith);
        }
    } else {
        lemma_lex_lt_rank(a.skip(1), b.skip(1));
    }
}

/// rank order and lexicographic order coincide on valid words of equal length.
pub proof fn lemma_lex_rank(a: Seq<u8>, b: Seq<u8>)
    requires
        valid_word(a),
        valid_word(b),
        a.len() == b.len(),
    ensures
        lex_lt(a, b) <==> rank_of(a) < rank_of(b),
{
    lemma_lex_total(a, b);
    if lex_lt(a, b) {
        lemma_lex_lt_rank(a, b);
    } else if lex_lt(b, a) {
        lemma_lex_lt_rank(b, a);
    }
}

/// Valid words of equal length and equal rank are equal.
pub proof fn lemma_rank_inj(a: Seq<u8>, b: Seq<u8>)
    requires
        valid_word(a),
        valid_word(b),
        a.len() == b.len(),
        rank_of(a) == rank_of(b),
    ensures
        a == b,
{
    lemma_lex_total(a, b);
    if lex_lt(a, b) {
        lemma_lex_lt_rank(a, b);
    }
    if lex_lt(b, a) {
        lemma_lex_lt_rank(b, a);
    }
}

/// Padding with A multiplies the rank by 4^(number of appended symbols).
pub proof fn lemma_pad(s: Seq<u8>, l: nat)
    requires
        valid_word(s),
        s.len() <= l,
    ensures
        pad_word(s, l).len() == l,
        valid_word(pad_word(s, l)),
        rank_of(pad_word(s, l)) == rank_of(s) * pow4((l - s.len()) as nat),
    decreases l - s.len(),
{
    if s.len() == l {
        assert(pad_word(s, l) =~= s);
        assert(pow4((l - s.len()) as nat) == 1);
        assert(rank_of(s) * pow4((l - s.len()) as nat) == rank_of(s) * 1);
        assert(rank_of(s) * 1 == rank_of(s)) by (nonlinear_arith);
    } else {
        let t = s.push(SYM_A);
        assert(valid_word(t)) by {
            assert(forall|i: int| 0 <= i < s.len() ==> t[i] == #[trigger] s[i]);
        }
        assert(t.drop_last() =~= s);
        assert(rank_of(t) == rank_of(s) * 4);
        lemma_pad(t, l);
        assert(pad_word(s, l) =~= pad_word(t, l));
        let m = (l - t.len()) as nat;
        assert(rank_of(pad_word(s, l)) == rank_of(pad_word(t, l)));
        assert(rank_of(pad_word(t, l)) == rank_of(t) * pow4(m));
        assert(rank_of(pad_word(s, l)) == (rank_of(s) * 4) * pow4(m));
        assert((rank_of(s) * 4) * pow4(m) == rank_of(s) * (4 * pow4(m))) by (nonlinear_arith);
        assert(pow4((l - s.len()) as nat) == 4 * pow4(m));
        assert(rank_of(pad_word(s, l)) == rank_of(s) * pow4((l - s.len()) as nat));
    }
}

/// The all-T word has the greatest rank of its length; any other valid word
/// has rank strictly below 4^len - 1.
pub proof fn lemma_all_t_rank(s: Seq<u8>)
    requires
        valid_word(s),
    ensures
        all_t(s) <==> rank_of(s) == pow4(s.len()) - 1,
        !all_t(s) ==> rank_of(s) < pow4(s.len()) - 1,
    decreases s.len(),
{
    if s.len() == 0 {
    } else {
        let d = s.drop_last();
        assert(valid_word(d)) by {
            assert(forall|i: int| 0 <= i < s.len() - 1 ==> d[i] == #[trigger] s[i]);
        }
        lemma_all_t_rank(d);
        lemma_rank_bound(d);
        if all_t(s) {
            assert(all_t(d)) by {
                assert(forall|i: int| 0 <= i < d.len() ==> #[trigger] d[i] == s[i]);
            }
            assert(s.last() == SYM_T);
        } else {
            if s.last() == SYM_T {
                assert(!all_t(d)) by {
                    if all_t(d) {
                        assert(forall|i: int| 0 <= i < s.len() ==> #[trigger] s[i] == SYM_T) by {
                            assert(forall|i: int|
                                0 <= i < s.len() - 1 ==> #[trigger] s[i] == d[i]);
                        }
                    }
                }
            }
        }
    }
}

/// The successor keeps length and validity, and increments the rank,
/// wrapping the all-T word to rank 0.
pub proof fn lemma_next_word(s: Seq<u8>)
    requires
        valid_word(s),
    ensures
        next_word(s).len() == s.len(),
        valid_word(next_word(s)),
        rank_of(next_word(s)) == if all_t(s) {
            0
        } else {
            rank_of(s) + 1
        },
    decreases s.len(),
{
    if s.len() == 0 {
    } else {
        let d = s.drop_last();
        assert(valid_word(d)) by {
            assert(forall|i: int| 0 <= i < s.len() - 1 ==> d[i] == #[trigger] s[i]);
        }
        if s.last() == SYM_T {
            lemma_next_word(d);
            let nd = next_word(d);
            let r = nd.push(SYM_A);
            assert(valid_word(r)) by {
                assert(forall|i: int| 0 <= i < nd.len() ==> r[i] == #[trigger] nd[i]);
            }
            assert(r.drop_last() =~= nd);
            assert(rank_of(r) == rank_of(nd) * 4);
            if all_t(d) {
                assert(all_t(s)) by {
                    assert(forall|i: int|
                        0 <= i < s.len() ==> #[trigger] s[i] == if i < s.len() - 1 {
                            d[i]
                        } else {
                            SYM_T
                        });
                }
            } else {
                let k = choose|k: int| 0 <= k < d.len() && d[k] != SYM_T;
                assert(s[k] != SYM_T);
                assert(!all_t(s));
                assert(rank_of(nd) == rank_of(d) + 1);
                assert(rank_of(s) == rank_of(d) * 4 + 3);
            }
        } else {
            let r = d.push(succ_sym(s.last()));
            assert(valid_sym(succ_sym(s.last())));
            assert(valid_word(r)) by {
                assert(forall|i: int| 0 <= i < d.len() ==> r[i] == #[trigger] d[i]);
            }
            assert(r.drop_last() =~= d);
            assert(sym_val(succ_sym(s.last())) == sym_val(s.last()) + 1);
            assert(s[s.len() - 1] != SYM_T);
            assert(!all_t(s));
        }
    }
}

/// Shape of the successor when the word is not all T: the suffix of Ts after
/// the last non-T symbol turns to As and that symbol steps forward.
pub proof fn lemma_next_shape(s: Seq<u8>, j: int)
    requires
        0 <= j < s.len(),
        s[j] != SYM_T,
        forall|idx: int| j < idx < s.len() ==> #[trigger] s[idx] == SYM_T,
    ensures
        next_word(s) == s.take(j).push(succ_sym(s[j])) + Seq::new(
            (s.len() - j - 1) as nat,
            |i: int| SYM_A,
        ),
    decreases s.len(),
{
    if j == s.len() - 1 {
        assert(s.drop_last() =~= s.take(j));
        assert(next_word(s) =~= s.take(j).push(succ_sym(s[j])) + Seq::new(
            0nat,
            |i: int| SYM_A,
        ));
    } else {
        let d = s.drop_last();
        assert(s.last() == SYM_T);
        lemma_next_shape(d, j);
        assert(d.take(j) =~= s.take(j));
        assert(next_word(s) == next_word(d).push(SYM_A));
        assert(next_word(d).push(SYM_A) =~= s.take(j).push(succ_sym(s[j])) + Seq::new(
            (s.len() - j - 1) as nat,
            |i: int| SYM_A,
        ));
    }
}

pub proof fn lemma_next_all_t(s: Seq<u8>)
    requires
        all_t(s),
    ensures
        next_word(s) == Seq::new(s.len(), |i: int| SYM_A),
    decreases s.len(),
{
    if s.len() == 0 {
        assert(next_word(s) =~= Seq::new(s.len(), |i: int| SYM_A));
    } else {
        let d = s.drop_last();
        assert(all_t(d)) by {
            assert(forall|i: int| 0 <= i < d.len() ==> #[trigger] d[i] == s[i]);
        }
        lemma_next_all_t(d);
        assert(s.last() == SYM_T);
        assert(next_word(s) =~= Seq::new(s.len(), |i: int| SYM_A));
    }
}

/// Base-4 value of a word, most significant symbol first.
pub fn lex_num(a: &Vec<u8>) -> (r: usize)
    requires
        valid_word(a@),
        pow4(a@.len() as nat) <= usize::MAX,
    ensures
        r as nat == rank_of(a@),
{
    let mut res: usize = 0;
    let mut i: usize = 0;
    while i < a.len()
        invariant
            valid_word(a@),
            pow4(a@.len() as nat) <= usize::MAX,
            0 <= i <= a@.len(),
            res as nat == rank_of(a@.take(i as int)),
        decreases a@.len() - i,
    {
        proof {
            assert(valid_word(a@.take(i as int))) by {
                assert(forall|k: int|
                    0 <= k < i ==> a@.take(i as int)[k] == #[trigger] a@[k]);
            }
            lemma_rank_bound(a@.take(i as int));
            assert(a@.take(i as int).len() == i);
            lemma_pow4_mono((i + 1) as nat, a@.len() as nat);
            assert(pow4((i + 1) as nat) == 4 * pow4(i as nat));
        }
        let c = a[i];
        let v: usize = if c == SYM_A {
            0
        } else if c == SYM_C {
            1
        } else if c == SYM_G {
            2
        } else {
            3
        };
        assert(v as nat == sym_val(c));
        res = res * 4 + v;
        proof {
            assert(a@.take(i + 1int).drop_last() =~= a@.take(i as int));
            assert(a@.take(i + 1int).last() == a@[i as int]);
        }
        i += 1;
    }
    proof {
        assert(a@.take(a@.len() as int) =~= a@);
    }
    res
}

/// The lexicographic successor of a word: base-4 increment with wraparound,
/// so the all-T word yields the all-A word.
pub fn lex_next(a: &Vec<u8>) -> (r: Vec<u8>)
    requires
        valid_word(a@),
    ensures
        r@ == next_word(a@),
        r@.len() == a@.len(),
        valid_word(r@),
        rank_of(r@) == if all_t(a@) {
            0nat
        } else {
            rank_of(a@) + 1
        },
{
    proof {
        lemma_next_word(a@);
    }
    let n = a.len();
    let mut j: usize = n;
    while j > 0 && a[j - 1] == SYM_T
        invariant
            0 <= j <= n,
            n == a@.len(),
            forall|idx: int| j <= idx < n ==> #[trigger] a@[idx] == SYM_T,
        decreases j,
    {
        j -= 1;
    }
    let mut r: Vec<u8> = Vec::new();
    if j == 0 {
        assert(all_t(a@));
        let mut k: usize = 0;
        while k < n
            invariant
                0 <= k <= n,
                r@ == Seq::new(k as nat, |i: int| SYM_A),
            decreases n - k,
        {
            r.push(SYM_A);
            proof {
                assert(r@ =~= Seq::new((k + 1) as nat, |i: int| SYM_A));
            }
            k += 1;
        }
        proof {
            lemma_next_all_t(a@);
        }
        r
    } else {
        let mut k: usize = 0;
        while k < j - 1
            invariant
                0 <= k <= j - 1,
                j <= n == a@.len(),
                r@ == a@.take(k as int),
            decreases j - k,
        {
            r.push(a[k]);
            proof {
                assert(r@ =~= a@.take((k + 1) as int));
            }
            k += 1;
        }
        let c = a[j - 1];
        let sc: u8 = if c == SYM_A {
            SYM_C
        } else if c == SYM_C {
            SYM_G
        } else {
            SYM_T
        };
        assert(sc == succ_sym(c));
        r.push(sc);
        assert(r@ == a@.take(j - 1int).push(succ_sym(a@[j - 1int])));
        let mut m: usize = j;
        while m < n
            invariant
                j <= m <= n,
                n == a@.len(),
                0 < j,
                r@ == a@.take(j - 1int).push(succ_sym(a@[j - 1int])) + Seq::new(
                    (m - j) as nat,
                    |i: int| SYM_A,
                ),
            decreases n - m,
        {
            r.push(SYM_A);
            proof {
                assert(r@ =~= a@.take(j - 1int).push(succ_sym(a@[j - 1int])) + Seq::new(
                    (m + 1 - j) as nat,
                    |i: int| SYM_A,
                ));
            }
            m += 1;
        }
        proof {
            lemma_next_shape(a@, j - 1);
        }
        r
    }
}

pub fn word_is_all_t(a: &Vec<u8>) -> (r: bool)
    ensures
        r == all_t(a@),
{
    let mut i: usize = 0;
    while i < a.len()
        invariant
            0 <= i <= a@.len(),
            forall|k: int| 0 <= k < i ==> #[trigger] a@[k] == SYM_T,
        decreases a@.len() - i,
    {
        if a[i] != SYM_T {
            return false;
        }
        i += 1;
    }
    true
}

pub fn check_symbols(a: &Vec<u8>) -> (r: bool)
    ensures
        r == valid_word(a@),
{
    let mut i: usize = 0;
    while i < a.len()
        invariant
            0 <= i <= a@.len(),
            forall|k: int| 0 <= k < i ==> valid_sym(#[trigger] a@[k]),
        decreases a@.len() - i,
    {
        let c = a[i];
        if !(c == SYM_A || c == SYM_C || c == SYM_G || c == SYM_T) {
            return false;
        }
        i += 1;
    }
    true
}

/// Copy a word and right-pad it with A to length l.
pub fn pad_to(a: &Vec<u8>, l: usize) -> (r: Vec<u8>)
    requires
        a@.len() <= l,
    ensures
        r@ == pad_word(a@, l as nat),
        r@.len() == l,
{
    let mut r: Vec<u8> = Vec::new();
    let mut i: usize = 0;
    while i < a.len()
        invariant
            0 <= i <= a@.len(),
            r@ == a@.take(i as int),
        decreases a@.len() - i,
    {
        r.push(a[i]);
        proof {
            assert(r@ =~= a@.take((i + 1) as int));
        }
        i += 1;
    }
    assert(r@ =~= a@);
    while r.len() < l
        invariant
            a@.len() <= r@.len() <= l,
            r@ == a@ + Seq::new((r@.len() - a@.len()) as nat, |i: int| SYM_A),
        decreases l - r@.len(),
    {
        r.push(SYM_A);
        proof {
            assert(r@ =~= a@ + Seq::new((r@.len() - a@.len()) as nat, |i: int| SYM_A));
        }
    }
    proof {
        assert(r@ =~= pad_word(a@, l as nat));
    }
    r
}


/// The padded word and the padded successor word bound a query interval;
/// for a word that is not all T the first lies strictly below the second.
pub proof fn lemma_pad_next_lt(a: Seq<u8>, l: nat)
    requires
        valid_word(a),
        1 <= a.len() <= l,
        !all_t(a),
    ensures
        lex_lt(pad_word(a, l), pad_word(next_word(a), l)),
        lex_le(pad_word(a, l), pad_word(next_word(a), l)),
{
    lemma_next_word(a);
    let m = (l - a.len()) as nat;
    lemma_pad(a, l);
    lemma_pad(next_word(a), l);
    lemma_pow4_pos(m);
    assert((rank_of(a) + 1) * pow4(m) == rank_of(a) * pow4(m) + pow4(m)) by (nonlinear_arith);
    assert(rank_of(pad_word(a, l)) < rank_of(pad_word(next_word(a), l)));
    lemma_lex_rank(pad_word(a, l), pad_word(next_word(a), l));
    lemma_lex_total(pad_word(a, l), pad_word(next_word(a), l));
}

/// 4^l as a machine integer, or None when it does not fit in usize.
pub fn try_pow4(l: usize) -> (r: Option<usize>)
    ensures
        match r {
            Some(v) => v as nat == pow4(l as nat) && pow4(l as nat) <= usize::MAX,
            None => pow4(l as nat) > usize::MAX,
        },
{
    let mut r: usize = 1;
    let mut k: usize = 0;
    while k < l
        invariant
            0 <= k <= l,
            r as nat == pow4(k as nat),
        decreases l - k,
    {
        if r > usize::MAX / 4 {
            proof {
                assert(pow4((k + 1) as nat) == 4 * pow4(k as nat));
                assert(4 * (r as int) > usize::MAX as int);
                lemma_pow4_mono((k + 1) as nat, l as nat);
            }
            return None;
        }
        proof {
            assert(4 * (r as int) <= usize::MAX as int);
            assert(pow4((k + 1) as nat) == 4 * pow4(k as nat));
        }
        r = r * 4;
        k += 1;
    }
    Some(r)
}


/// Concatenation reads as base-4 digits: the left part is shifted by the
/// length of the right part.
pub proof fn lemma_rank_concat(a: Seq<u8>, b: Seq<u8>)
    ensures
        rank_of(a + b) == rank_of(a) * pow4(b.len()) + rank_of(b),
    decreases b.len(),
{
    if b.len() == 0 {
        assert(a + b =~= a);
        assert(pow4(b.len()) == 1);
        assert(rank_of(a) * 1 == rank_of(a)) by (nonlinear_arith);
    } else {
        let d = b.drop_last();
        lemma_rank_concat(a, d);
        assert((a + b).drop_last() =~= a + d);
        assert((a + b).last() == b.last());
        assert(rank_of(a + b) == (rank_of(a) * pow4(d.len()) + rank_of(d)) * 4 + sym_val(
            b.last(),
        ));
        assert((rank_of(a) * pow4(d.len()) + rank_of(d)) * 4 == rank_of(a) * (4 * pow4(d.len()))
            + rank_of(d) * 4) by (nonlinear_arith);
        assert(pow4(b.len()) == 4 * pow4(d.len()));
    }
}

/// The all-A word is the lexicographic minimum of its length.
pub proof fn lemma_min_word(x: Seq<u8>, m: int)
    requires
        valid_word(x),
        x.len() == m,
        m >= 0,
    ensures
        !lex_lt(x, Seq::new(m as nat, |i: int| SYM_A)),
    decreases m,
{
    let w = Seq::new(m as nat, |i: int| SYM_A);
    if m > 0 {
        if x[0] == SYM_A {
            assert(valid_word(x.skip(1))) by {
                assert(forall|i: int| 0 <= i < x.len() - 1 ==> x.skip(1)[i] == #[trigger] x[i + 1]);
            }
            lemma_min_word(x.skip(1), m - 1);
            assert(w.skip(1) =~= Seq::new((m - 1) as nat, |i: int| SYM_A));
        } else {
            assert(valid_sym(x[0]));
            assert(x[0] > SYM_A);
        }
    }
}

} // verus!
