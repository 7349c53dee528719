use vstd::prelude::*;
use crate::codec::{valid_word, all_t, pow4, rank_of, pad_word, next_word, lex_lt, lex_le,
    lemma_rank_bound, lemma_pad, lemma_next_word, lemma_lex_rank, lemma_lex_total,
    lemma_pad_next_lt, lemma_rank_concat, lemma_min_word, SYM_A};
use crate::blocks::{block_count, block_of, is_perm_of, perm_sorted, is_boundary, boundary_of,
    lemma_boundary_unique, lemma_boundary_exists, lemma_boundary_mono,
    lemma_boundary_count, lemma_perm_contains, lemma_lex_skip, lemma_block_index};
use crate::index::{query_lo, query_hi};

verus! {

/// A block of a valid text is itself a valid word.
pub proof fn lemma_block_valid(text: Seq<u8>, l: int, b: int)
    requires
        valid_word(text),
        l >= 1,
        b >= 0,
        b * l <= text.len(),
    ensures
        valid_word(block_of(text, l, b)),
{
    let w = block_of(text, l, b);
    assert((b + 1) * l == b * l + l) by (nonlinear_arith);
    assert forall|i: int| 0 <= i < w.len() implies crate::codec::valid_sym(#[trigger] w[i]) by {
        assert(w[i] == text[b * l + i]);
    }
}

/// Law: querying with the full-length content of an existing block yields an
/// interval that contains that block's index.
pub proof fn lemma_query_contains_block(text: Seq<u8>, l: int, p: Seq<usize>, b: usize)
    requires
        l >= 1,
        valid_word(text),
        is_perm_of(p, block_count(text.len() as int, l)),
        perm_sorted(text, l, p),
        p.len() <= usize::MAX,
        0 <= b < block_count(text.len() as int, l),
        block_of(text, l, b as int).len() == l,
    ensures
        exists|j: int|
            query_lo(text, l, p, block_of(text, l, b as int)) <= j < query_hi(
                text,
                l,
                p,
                block_of(text, l, b as int),
            ) && p[j] == b,
{
    let w = block_of(text, l, b as int);
    lemma_block_index(text.len() as int, l, b as int);
    lemma_block_valid(text, l, b as int);
    assert(pad_word(w, l as nat) =~= w);
    lemma_boundary_exists(text, l, p, w);
    let lo = query_lo(text, l, p, w);
    lemma_perm_contains(p, p.len() as int, b);
    let j = choose|j: int| 0 <= j < p.len() && p[j] == b;
    // j is not before lo: the block there equals w, not strictly below it
    lemma_lex_total(w, w);
    assert(j >= lo);
    // j is before hi
    if all_t(w) {
        assert(j < query_hi(text, l, p, w));
    } else {
        let uhi = pad_word(next_word(w), l as nat);
        lemma_boundary_exists(text, l, p, uhi);
        lemma_pad_next_lt(w, l as nat);
        assert(lex_lt(block_of(text, l, p[j] as int), uhi));
        assert(j < query_hi(text, l, p, w));
    }
    assert(lo <= j < query_hi(text, l, p, w) && p[j] == b);
}

/// Law: the interval of a word contains the interval of every one of its
/// valid full-length completions.
pub proof fn lemma_query_superset(text: Seq<u8>, l: int, p: Seq<usize>, a: Seq<u8>, w: Seq<u8>)
    requires
        l >= 1,
        perm_sorted(text, l, p),
        valid_word(a),
        valid_word(w),
        1 <= a.len() <= l,
        w.len() == l,
        w.take(a.len() as int) == a,
    ensures
        query_lo(text, l, p, a) <= query_lo(text, l, p, w),
        query_hi(text, l, p, w) <= query_hi(text, l, p, a),
{
    let k = a.len() as int;
    let m = l - k;
    let ua = pad_word(a, l as nat);
    let uw = pad_word(w, l as nat);
    assert(uw =~= w);
    lemma_pad(a, l as nat);
    lemma_boundary_exists(text, l, p, ua);
    lemma_boundary_exists(text, l, p, w);
    // the padded word is at or below every completion
    assert(forall|i: int| 0 <= i < k ==> #[trigger] ua[i] == w[i]) by {
        assert(forall|i: int| 0 <= i < k ==> #[trigger] w.take(k)[i] == w[i]);
    }
    lemma_lex_skip(w, ua, k);
    assert(ua.skip(k) =~= Seq::new(m as nat, |i: int| SYM_A));
    assert(valid_word(w.skip(k))) by {
        assert(forall|i: int| 0 <= i < w.len() - k ==> w.skip(k)[i] == #[trigger] w[i + k]);
    }
    lemma_min_word(w.skip(k), m);
    assert(lex_le(ua, w));
    lemma_boundary_mono(
        text,
        l,
        p,
        ua,
        w,
        boundary_of(text, l, p, ua),
        boundary_of(text, l, p, w),
    );
    // upper ends
    if all_t(a) {
        if !all_t(w) {
            lemma_boundary_exists(text, l, p, pad_word(next_word(w), l as nat));
        }
        assert(query_hi(text, l, p, w) <= p.len());
        assert(query_hi(text, l, p, a) == p.len());
    } else {
        assert(!all_t(w)) by {
            let i = choose|i: int| 0 <= i < a.len() && a[i] != crate::codec::SYM_T;
            assert(w.take(k)[i] == w[i]);
        }
        let na = pad_word(next_word(a), l as nat);
        let nw = pad_word(next_word(w), l as nat);
        lemma_next_word(a);
        lemma_next_word(w);
        lemma_pad(next_word(a), l as nat);
        assert(nw =~= next_word(w));
        lemma_boundary_exists(text, l, p, na);
        lemma_boundary_exists(text, l, p, nw);
        // rank(next w) <= rank(padded next a)
        assert(w =~= a + w.skip(k));
        lemma_rank_concat(a, w.skip(k));
        lemma_rank_bound(w.skip(k));
        assert(w.skip(k).len() == m);
        assert((rank_of(a) + 1) * pow4(m as nat) == rank_of(a) * pow4(m as nat) + pow4(
            m as nat,
        )) by (nonlinear_arith);
        assert(rank_of(nw) <= rank_of(na));
        lemma_lex_rank(na, nw);
        assert(lex_le(nw, na));
        lemma_boundary_mono(
            text,
            l,
            p,
            nw,
            na,
            boundary_of(text, l, p, nw),
            boundary_of(text, l, p, na),
        );
    }
}

/// Law: cross-backend equivalence. The query interval depends only on the
/// text, the block length and the word: two sorted permutations of the same
/// blocks give the same bounds, so the LookupTable and the BitVector backend
/// answer every query identically.
pub proof fn lemma_backend_agreement(
    text: Seq<u8>,
    l: int,
    p1: Seq<usize>,
    p2: Seq<usize>,
    a: Seq<u8>,
)
    requires
        l >= 1,
        is_perm_of(p1, block_count(text.len() as int, l)),
        perm_sorted(text, l, p1),
        is_perm_of(p2, block_count(text.len() as int, l)),
        perm_sorted(text, l, p2),
        p1.len() <= usize::MAX,
    ensures
        query_lo(text, l, p1, a) == query_lo(text, l, p2, a),
        query_hi(text, l, p1, a) == query_hi(text, l, p2, a),
{
    let ua = pad_word(a, l as nat);
    lemma_boundary_exists(text, l, p1, ua);
    lemma_boundary_exists(text, l, p2, ua);
    lemma_boundary_count(text, l, p1, ua, boundary_of(text, l, p1, ua));
    lemma_boundary_count(text, l, p2, ua, boundary_of(text, l, p2, ua));
    if !all_t(a) {
        let uh = pad_word(next_word(a), l as nat);
        lemma_boundary_exists(text, l, p1, uh);
        lemma_boundary_exists(text, l, p2, uh);
        lemma_boundary_count(text, l, p1, uh, boundary_of(text, l, p1, uh));
        lemma_boundary_count(text, l, p2, uh, boundary_of(text, l, p2, uh));
    }
}

/// Law: queries are deterministic. The interval bounds are uniquely
/// determined by the index state and the word, so repeating the same query
/// returns the same interval; a query borrows the index immutably, so no
/// state changes between the calls.
pub proof fn lemma_query_repeatable(
    text: Seq<u8>,
    l: int,
    p: Seq<usize>,
    a: Seq<u8>,
    lo1: int,
    hi1: int,
    lo2: int,
    hi2: int,
)
    requires
        is_boundary(text, l, p, pad_word(a, l as nat), lo1),
        is_boundary(text, l, p, pad_word(a, l as nat), lo2),
        all_t(a) ==> hi1 == p.len() && hi2 == p.len(),
        !all_t(a) ==> is_boundary(text, l, p, pad_word(next_word(a), l as nat), hi1)
            && is_boundary(text, l, p, pad_word(next_word(a), l as nat), hi2),
    ensures
        lo1 == lo2,
        hi1 == hi2,
{
    lemma_boundary_unique(text, l, p, pad_word(a, l as nat), lo1, lo2);
    if !all_t(a) {
        lemma_boundary_unique(text, l, p, pad_word(next_word(a), l as nat), hi1, hi2);
    }
}

} // verus!
