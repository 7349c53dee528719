use vstd::prelude::*;
use crate::codec::{valid_word, all_t, pow4, rank_of, pad_word, next_word, lex_lt,
    lemma_rank_bound, lemma_rank_inj, lemma_pad, lemma_next_word, lemma_all_t_rank,
    lemma_lex_rank, lemma_lex_trans, lemma_le_trans, lemma_pad_next_lt,
    lemma_pow4_pos, try_pow4, pad_to, lex_num, lex_next, word_is_all_t};
use crate::blocks::{block_count, block_of, is_perm_of, perm_sorted, is_boundary,
    lemma_boundary_mono};
use crate::pointer::{PointerArray, cursor_within};
use crate::fid::{fid_bits, count_true, count_false, is_sel, fid_from_bits, fid_rank0,
    fid_select};

verus! {

/// Succinct backend: boundaries are stored as a bit sequence holding one 1 bit
/// per word rank, in rank order, with one 0 bit per block placed after the
/// marker of the greatest rank whose word is at or below the block's content.
/// The boundary of the word of rank w is then the number of 0 bits before the
/// w-th 1 bit, which the rank/select dictionary answers as rank0(select1(w)).
pub struct BitVector {
    vector: fid_rs::Fid,
    n_blocks: usize,
    text_g: Ghost<Seq<u8>>,
    len_g: Ghost<int>,
    perm_g: Ghost<Seq<usize>>,
}

/// Counting true bits over a prefix is monotone in the prefix length.
pub proof fn lemma_count_true_take_le(s: Seq<bool>, m1: int, m2: int)
    requires
        0 <= m1 <= m2 <= s.len(),
    ensures
        count_true(s.take(m1)) <= count_true(s.take(m2)),
    decreases m2 - m1,
{
    if m1 < m2 {
        lemma_count_true_take_le(s, m1, m2 - 1);
        assert(s.take(m2).drop_last() =~= s.take(m2 - 1));
        assert(count_true(s.take(m2)) >= count_true(s.take(m2 - 1)));
    }
}

/// How a selected position relates to the sequence before a push: either it
/// was already selected there, or it is the newly pushed one bit.
pub proof fn lemma_sel_push(bits: Seq<bool>, x: bool, k: int, p: int)
    requires
        is_sel(bits.push(x), k, p),
    ensures
        p < bits.len() ==> is_sel(bits, k, p) && bits.push(x).take(p + 1) == bits.take(p + 1),
        p == bits.len() ==> x && k == count_true(bits) + 1,
{
    let nb = bits.push(x);
    if p < bits.len() {
        assert(nb.take(p + 1) =~= bits.take(p + 1));
        assert(bits[p] == nb[p]);
    } else {
        assert(p == bits.len());
        assert(nb.take(p + 1) =~= nb);
        assert(nb.drop_last() =~= bits);
        assert(nb.last() == x);
    }
}

impl BitVector {
    /// The boundary of the valid word u of rank w, answered by the dictionary
    /// as the number of 0 bits at or before the (w+1)-th 1 bit.
    fn bound(&self, w: usize, Ghost(u): Ghost<Seq<u8>>) -> (r: usize)
        requires
            self.wf(),
            valid_word(u),
            u.len() == self.block_len(),
            rank_of(u) == w,
        ensures
            is_boundary(self.text_model(), self.block_len(), self.perm(), u, r as int),
            r <= self.perm().len(),
    {
        proof {
            lemma_rank_bound(u);
            assert((w as int) + 1 <= pow4(self.len_g@ as nat));
        }
        let num: u64 = w as u64 + 1;
        let sel = fid_select(&self.vector, num);
        match sel {
            Some(p) => {
                proof {
                    assert(is_sel(fid_bits(self.vector), num as int, p as int));
                }
                let z = fid_rank0(&self.vector, p);
                proof {
                    assert(is_boundary(
                        self.text_g@,
                        self.len_g@,
                        self.perm_g@,
                        u,
                        count_false(fid_bits(self.vector).take(p as int + 1)) as int,
                    ));
                }
                z as usize
            },
            None => {
                proof {
                    assert(count_true(fid_bits(self.vector)) < num);
                    assert(false);
                }
                0
            },
        }
    }
}

impl PointerArray for BitVector {
    closed spec fn wf(&self) -> bool {
        &&& self.len_g@ >= 1
        &&& valid_word(self.text_g@)
        &&& self.text_g@.len() >= 1
        &&& pow4(self.len_g@ as nat) <= usize::MAX
        &&& is_perm_of(self.perm_g@, block_count(self.text_g@.len() as int, self.len_g@))
        &&& perm_sorted(self.text_g@, self.len_g@, self.perm_g@)
        &&& self.n_blocks == self.perm_g@.len()
        &&& count_true(fid_bits(self.vector)) == pow4(self.len_g@ as nat)
        &&& fid_bits(self.vector).len() == pow4(self.len_g@ as nat) + self.n_blocks
        &&& forall|u: Seq<u8>, k: int, p: int|
            valid_word(u) && u.len() == self.len_g@ && k == (#[trigger] rank_of(u)) + 1 && #[trigger] is_sel(
                fid_bits(self.vector),
                k,
                p,
            ) ==> is_boundary(
                self.text_g@,
                self.len_g@,
                self.perm_g@,
                u,
                count_false(fid_bits(self.vector).take(p + 1)) as int,
            )
    }

    closed spec fn text_model(&self) -> Seq<u8> {
        self.text_g@
    }

    closed spec fn block_len(&self) -> int {
        self.len_g@
    }

    closed spec fn perm(&self) -> Seq<usize> {
        self.perm_g@
    }

    fn new(text_rep: &Vec<u8>, perm_array: &Vec<usize>, length: usize) -> (r: Self) {
        let nb = perm_array.len();
        let p4 = match try_pow4(length) {
            Some(v) => v,
            None => {
                proof {
                    assert(false);
                }
                0
            },
        };
        let mut bits: Vec<bool> = Vec::new();
        let mut ones: usize = 0;
        let empty: Vec<u8> = Vec::new();
        let mut cursor: Vec<u8> = pad_to(&empty, length);
        proof {
            lemma_pad(empty@, length as nat);
            assert(rank_of(empty@) * pow4(length as nat) == 0) by (nonlinear_arith)
                requires
                    rank_of(empty@) == 0,
            ;
        }
        let ghost text = text_rep@;
        let ghost perm = perm_array@;
        let ghost li = length as int;
        let mut i: usize = 0;
        while i < nb
            invariant
                0 <= i <= nb,
                nb == perm.len(),
                text == text_rep@,
                perm == perm_array@,
                li == length as int,
                length >= 1,
                valid_word(text),
                text.len() >= 1,
                pow4(length as nat) <= usize::MAX,
                p4 as nat == pow4(length as nat),
                is_perm_of(perm, block_count(text.len() as int, li)),
                perm_sorted(text, li, perm),
                ones <= p4,
                count_true(bits@) == ones,
                count_false(bits@) == i,
                bits@.len() == ones + i,
                cursor@.len() == length,
                valid_word(cursor@),
                ones < p4 ==> rank_of(cursor@) == ones,
                forall|u: Seq<u8>, k: int, p: int|
                    valid_word(u) && u.len() == li && k == (#[trigger] rank_of(u)) + 1 && k <= ones
                        && #[trigger] is_sel(bits@, k, p) ==> is_boundary(
                        text,
                        li,
                        perm,
                        u,
                        count_false(bits@.take(p + 1)) as int,
                    ),
                ones < p4 ==> (forall|j: int|
                    0 <= j < i ==> lex_lt(
                        block_of(text, li, #[trigger] perm[j] as int),
                        cursor@,
                    )),
            decreases nb - i,
        {
            while cursor_within(text_rep, length, perm_array, i, &cursor, ones, p4)
                invariant
                    0 <= i < nb,
                    nb == perm.len(),
                    text == text_rep@,
                    perm == perm_array@,
                    li == length as int,
                    length >= 1,
                    valid_word(text),
                    text.len() >= 1,
                    pow4(length as nat) <= usize::MAX,
                    p4 as nat == pow4(length as nat),
                    is_perm_of(perm, block_count(text.len() as int, li)),
                    perm_sorted(text, li, perm),
                    ones <= p4,
                    count_true(bits@) == ones,
                    count_false(bits@) == i,
                    bits@.len() == ones + i,
                    cursor@.len() == length,
                    valid_word(cursor@),
                    ones < p4 ==> rank_of(cursor@) == ones,
                    forall|u: Seq<u8>, k: int, p: int|
                        valid_word(u) && u.len() == li && k == (#[trigger] rank_of(u)) + 1 && k <= ones
                            && #[trigger] is_sel(bits@, k, p) ==> is_boundary(
                            text,
                            li,
                            perm,
                            u,
                            count_false(bits@.take(p + 1)) as int,
                        ),
                    ones < p4 ==> (forall|j: int|
                        0 <= j < i ==> lex_lt(
                            block_of(text, li, #[trigger] perm[j] as int),
                            cursor@,
                        )),
                decreases p4 - ones,
            {
                let ghost old_bits = bits@;
                let ghost c = ones as int;
                let ghost cur0 = cursor@;
                proof {
                    // the cursor word's boundary is the zero count so far: i
                    assert forall|j: int| i <= j < nb implies !lex_lt(
                        block_of(text, li, #[trigger] perm[j] as int),
                        cur0,
                    ) by {
                        if j > i {
                            lemma_le_trans(
                                cur0,
                                block_of(text, li, perm[i as int] as int),
                                block_of(text, li, perm[j] as int),
                            );
                        }
                    }
                    assert(is_boundary(text, li, perm, cur0, i as int));
                }
                bits.push(true);
                ones += 1;
                cursor = lex_next(&cursor);
                proof {
                    lemma_all_t_rank(cur0);
                    assert(bits@ == old_bits.push(true));
                    assert(bits@.drop_last() =~= old_bits);
                    assert(count_true(bits@) == c + 1);
                    assert(bits@.take(bits@.len() as int) =~= bits@);
                    assert forall|u: Seq<u8>, k: int, p: int|
                        valid_word(u) && u.len() == li && k == (#[trigger] rank_of(u)) + 1 && k <= ones
                            && #[trigger] is_sel(bits@, k, p) implies is_boundary(
                        text,
                        li,
                        perm,
                        u,
                        count_false(bits@.take(p + 1)) as int,
                    ) by {
                        lemma_sel_push(old_bits, true, k, p);
                        if p < old_bits.len() {
                            if k == c + 1 {
                                lemma_count_true_take_le(old_bits, p + 1, old_bits.len() as int);
                                assert(old_bits.take(old_bits.len() as int) =~= old_bits);
                                assert(false);
                            }
                        } else {
                            // the newly pushed marker: k == c + 1, u is the cursor word
                            lemma_rank_inj(u, cur0);
                            assert(count_false(bits@.take(p + 1)) == i);
                        }
                    }
                    if ones < p4 {
                        assert(!all_t(cur0));
                        assert(rank_of(cursor@) == c + 1);
                        lemma_lex_rank(cur0, cursor@);
                        assert forall|j: int| 0 <= j < i implies lex_lt(
                            block_of(text, li, #[trigger] perm[j] as int),
                            cursor@,
                        ) by {
                            lemma_lex_trans(block_of(text, li, perm[j] as int), cur0, cursor@);
                        }
                    }
                }
            }
            // one zero bit for the block at position i
            let ghost old_bits = bits@;
            bits.push(false);
            proof {
                assert(bits@.drop_last() =~= old_bits);
                assert(count_true(bits@) == count_true(old_bits));
                assert(count_false(bits@) == count_false(old_bits) + 1);
                assert forall|u: Seq<u8>, k: int, p: int|
                    valid_word(u) && u.len() == li && k == (#[trigger] rank_of(u)) + 1 && k <= ones
                        && #[trigger] is_sel(bits@, k, p) implies is_boundary(
                    text,
                    li,
                    perm,
                    u,
                    count_false(bits@.take(p + 1)) as int,
                ) by {
                    lemma_sel_push(old_bits, false, k, p);
                }
                if ones < p4 {
                    assert(lex_lt(block_of(text, li, perm[i as int] as int), cursor@));
                }
            }
            i += 1;
        }
        // markers for the ranks beyond every block
        while ones < p4
            invariant
                nb == perm.len(),
                text == text_rep@,
                perm == perm_array@,
                li == length as int,
                length >= 1,
                valid_word(text),
                text.len() >= 1,
                pow4(length as nat) <= usize::MAX,
                p4 as nat == pow4(length as nat),
                is_perm_of(perm, block_count(text.len() as int, li)),
                perm_sorted(text, li, perm),
                ones <= p4,
                count_true(bits@) == ones,
                count_false(bits@) == nb,
                bits@.len() == ones + nb,
                cursor@.len() == length,
                valid_word(cursor@),
                ones < p4 ==> rank_of(cursor@) == ones,
                forall|u: Seq<u8>, k: int, p: int|
                    valid_word(u) && u.len() == li && k == (#[trigger] rank_of(u)) + 1 && k <= ones
                        && #[trigger] is_sel(bits@, k, p) ==> is_boundary(
                        text,
                        li,
                        perm,
                        u,
                        count_false(bits@.take(p + 1)) as int,
                    ),
                ones < p4 ==> (forall|j: int|
                    0 <= j < nb ==> lex_lt(
                        block_of(text, li, #[trigger] perm[j] as int),
                        cursor@,
                    )),
            decreases p4 - ones,
        {
            let ghost old_bits = bits@;
            let ghost c = ones as int;
            let ghost cur0 = cursor@;
            proof {
                assert(is_boundary(text, li, perm, cur0, nb as int));
            }
            bits.push(true);
            ones += 1;
            cursor = lex_next(&cursor);
            proof {
                lemma_all_t_rank(cur0);
                assert(bits@.drop_last() =~= old_bits);
                assert(count_true(bits@) == c + 1);
                assert(bits@.take(bits@.len() as int) =~= bits@);
                assert forall|u: Seq<u8>, k: int, p: int|
                    valid_word(u) && u.len() == li && k == (#[trigger] rank_of(u)) + 1 && k <= ones
                        && #[trigger] is_sel(bits@, k, p) implies is_boundary(
                    text,
                    li,
                    perm,
                    u,
                    count_false(bits@.take(p + 1)) as int,
                ) by {
                    lemma_sel_push(old_bits, true, k, p);
                    if p < old_bits.len() {
                        if k == c + 1 {
                            lemma_count_true_take_le(old_bits, p + 1, old_bits.len() as int);
                            assert(old_bits.take(old_bits.len() as int) =~= old_bits);
                            assert(false);
                        }
                    } else {
                        lemma_rank_inj(u, cur0);
                        assert(count_false(bits@.take(p + 1)) == nb);
                    }
                }
                if ones < p4 {
                    assert(!all_t(cur0));
                    assert(rank_of(cursor@) == c + 1);
                    lemma_lex_rank(cur0, cursor@);
                    assert forall|j: int| 0 <= j < nb implies lex_lt(
                        block_of(text, li, #[trigger] perm[j] as int),
                        cursor@,
                    ) by {
                        lemma_lex_trans(block_of(text, li, perm[j] as int), cur0, cursor@);
                    }
                }
            }
        }
        proof {
            lemma_pow4_pos(length as nat);
        }
        let vector = fid_from_bits(&bits);
        proof {
            assert forall|u: Seq<u8>, k: int, p: int|
                valid_word(u) && u.len() == li && k == (#[trigger] rank_of(u)) + 1
                    && #[trigger] is_sel(fid_bits(vector), k, p) implies is_boundary(
                text,
                li,
                perm,
                u,
                count_false(fid_bits(vector).take(p + 1)) as int,
            ) by {
                lemma_rank_bound(u);
                assert(is_sel(bits@, k, p));
            }
        }
        BitVector {
            vector,
            n_blocks: nb,
            text_g: Ghost(text_rep@),
            len_g: Ghost(length as int),
            perm_g: Ghost(perm_array@),
        }
    }

    fn _get_interval(&self, a: &Vec<u8>, length: usize) -> (r: (usize, usize)) {
        let ap = pad_to(a, length);
        proof {
            lemma_pad(a@, length as nat);
            lemma_rank_bound(ap@);
        }
        let lo_rank = lex_num(&ap);
        let lo = self.bound(lo_rank, Ghost(pad_word(a@, length as nat)));
        if word_is_all_t(a) {
            (lo, self.n_blocks)
        } else {
            let nx = lex_next(a);
            let hp = pad_to(&nx, length);
            proof {
                lemma_next_word(a@);
                lemma_pad(nx@, length as nat);
                lemma_rank_bound(hp@);
            }
            let hi_rank = lex_num(&hp);
            let hi = self.bound(hi_rank, Ghost(pad_word(next_word(a@), length as nat)));
            proof {
                lemma_pad_next_lt(a@, length as nat);
                lemma_boundary_mono(
                    self.text_g@,
                    self.len_g@,
                    self.perm_g@,
                    pad_word(a@, length as nat),
                    pad_word(next_word(a@), length as nat),
                    lo as int,
                    hi as int,
                );
            }
            (lo, hi)
        }
    }
}

} // verus!
