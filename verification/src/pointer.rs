use vstd::prelude::*;
use crate::codec::{valid_word, all_t, pow4, rank_of, pad_word, next_word, lex_lt,
    lemma_rank_bound, lemma_rank_inj, lemma_pad, lemma_next_word, lemma_all_t_rank,
    lemma_lex_rank, lemma_lex_trans, lemma_le_trans, lemma_pad_next_lt,
    try_pow4, pad_to, lex_num, lex_next, word_is_all_t};
use crate::blocks::{block_count, block_of, is_perm_of, perm_sorted, is_boundary,
    lemma_boundary_mono, lemma_block_index, block_lt_word};

verus! {

/// A pointer-array backend: it answers, for a query word, the interval of the
/// permutation array whose blocks match or extend the word.
pub trait PointerArray: Sized {
    spec fn wf(&self) -> bool;

    spec fn text_model(&self) -> Seq<u8>;

    spec fn block_len(&self) -> int;

    spec fn perm(&self) -> Seq<usize>;

    fn new(text_rep: &Vec<u8>, perm_array: &Vec<usize>, length: usize) -> (r: Self)
        requires
            valid_word(text_rep@),
            text_rep@.len() >= 1,
            length >= 1,
            pow4(length as nat) <= usize::MAX,
            is_perm_of(perm_array@, block_count(text_rep@.len() as int, length as int)),
            perm_sorted(text_rep@, length as int, perm_array@),
        ensures
            r.wf(),
            r.text_model() == text_rep@,
            r.block_len() == length as int,
            r.perm() == perm_array@,
    ;

    fn _get_interval(&self, a: &Vec<u8>, length: usize) -> (r: (usize, usize))
        requires
            self.wf(),
            length as int == self.block_len(),
            valid_word(a@),
            1 <= a@.len() <= length,
        ensures
            is_boundary(
                self.text_model(),
                self.block_len(),
                self.perm(),
                pad_word(a@, length as nat),
                r.0 as int,
            ),
            all_t(a@) ==> r.1 == self.perm().len(),
            !all_t(a@) ==> is_boundary(
                self.text_model(),
                self.block_len(),
                self.perm(),
                pad_word(next_word(a@), length as nat),
                r.1 as int,
            ),
            r.0 <= r.1 <= self.perm().len(),
    ;
}

/// Direct array backend: entry w is the first permutation position whose
/// block content is at least the word of rank w.
pub struct LookupTable {
    table: Vec<usize>,
    n_blocks: usize,
    text_g: Ghost<Seq<u8>>,
    len_g: Ghost<int>,
    perm_g: Ghost<Seq<usize>>,
}

/// Whether the cursor word still lies at or below the current block, so the
/// walk must record another boundary before moving on.
pub(crate) fn cursor_within(
    text: &Vec<u8>,
    l: usize,
    p: &Vec<usize>,
    i: usize,
    cursor: &Vec<u8>,
    filled: usize,
    cap: usize,
) -> (r: bool)
    requires
        l >= 1,
        text@.len() >= 1,
        i < p@.len(),
        forall|x: int|
            0 <= x < p@.len() ==> (#[trigger] p@[x] as int) < block_count(
                text@.len() as int,
                l as int,
            ),
    ensures
        r == (filled < cap && !lex_lt(
            block_of(text@, l as int, p@[i as int] as int),
            cursor@,
        )),
{
    if filled >= cap {
        return false;
    }
    proof {
        lemma_block_index(text@.len() as int, l as int, p@[i as int] as int);
    }
    !block_lt_word(text, l, p[i], cursor)
}

impl PointerArray for LookupTable {
    closed spec fn wf(&self) -> bool {
        &&& self.len_g@ >= 1
        &&& valid_word(self.text_g@)
        &&& self.text_g@.len() >= 1
        &&& pow4(self.len_g@ as nat) <= usize::MAX
        &&& is_perm_of(self.perm_g@, block_count(self.text_g@.len() as int, self.len_g@))
        &&& perm_sorted(self.text_g@, self.len_g@, self.perm_g@)
        &&& self.n_blocks == self.perm_g@.len()
        &&& self.table@.len() == pow4(self.len_g@ as nat)
        &&& forall|u: Seq<u8>|
            valid_word(u) && u.len() == self.len_g@ ==> is_boundary(
                self.text_g@,
                self.len_g@,
                self.perm_g@,
                u,
                (#[trigger] self.table@[rank_of(u) as int]) as int,
            )
    }

    closed spec fn text_model(&self) -> Seq<u8> {
        self.text_g@
    }

    closed spec fn block_len(&self) -> int {
        self.len_g@
    }

    closed spec fn perm(&self) -> Seq<usize> {
        self.perm_g@
    }

    fn new(text_rep: &Vec<u8>, perm_array: &Vec<usize>, length: usize) -> (r: Self) {
        let nb = perm_array.len();
        let p4 = match try_pow4(length) {
            Some(v) => v,
            None => {
                proof {
                    assert(false);
                }
                0
            },
        };
        let mut table: Vec<usize> = Vec::new();
        let empty: Vec<u8> = Vec::new();
        let mut cursor: Vec<u8> = pad_to(&empty, length);
        proof {
            lemma_pad(empty@, length as nat);
            assert(rank_of(empty@) * pow4(length as nat) == 0) by (nonlinear_arith)
                requires
                    rank_of(empty@) == 0,
            ;
        }
        let ghost text = text_rep@;
        let ghost perm = perm_array@;
        let ghost li = length as int;
        let mut i: usize = 0;
        while i < nb
            invariant
                0 <= i <= nb,
                nb == perm.len(),
                text == text_rep@,
                perm == perm_array@,
                li == length as int,
                length >= 1,
                valid_word(text),
                text.len() >= 1,
                pow4(length as nat) <= usize::MAX,
                p4 as nat == pow4(length as nat),
                is_perm_of(perm, block_count(text.len() as int, li)),
                perm_sorted(text, li, perm),
                table@.len() <= p4,
                cursor@.len() == length,
                valid_word(cursor@),
                table@.len() < p4 ==> rank_of(cursor@) == table@.len(),
                forall|u: Seq<u8>|
                    valid_word(u) && u.len() == li && rank_of(u) < table@.len() ==> is_boundary(
                        text,
                        li,
                        perm,
                        u,
                        (#[trigger] table@[rank_of(u) as int]) as int,
                    ),
                table@.len() < p4 ==> (forall|j: int|
                    0 <= j < i ==> lex_lt(
                        block_of(text, li, #[trigger] perm[j] as int),
                        cursor@,
                    )),
            decreases nb - i,
        {
            while cursor_within(text_rep, length, perm_array, i, &cursor, table.len(), p4)
                invariant
                    0 <= i < nb,
                    nb == perm.len(),
                    text == text_rep@,
                    perm == perm_array@,
                    li == length as int,
                    length >= 1,
                    valid_word(text),
                    text.len() >= 1,
                    pow4(length as nat) <= usize::MAX,
                    p4 as nat == pow4(length as nat),
                    is_perm_of(perm, block_count(text.len() as int, li)),
                    perm_sorted(text, li, perm),
                    table@.len() <= p4,
                    cursor@.len() == length,
                    valid_word(cursor@),
                    table@.len() < p4 ==> rank_of(cursor@) == table@.len(),
                    forall|u: Seq<u8>|
                        valid_word(u) && u.len() == li && rank_of(u) < table@.len()
                            ==> is_boundary(
                            text,
                            li,
                            perm,
                            u,
                            (#[trigger] table@[rank_of(u) as int]) as int,
                        ),
                    table@.len() < p4 ==> (forall|j: int|
                        0 <= j < i ==> lex_lt(
                            block_of(text, li, #[trigger] perm[j] as int),
                            cursor@,
                        )),
                decreases p4 - table@.len(),
            {
                let ghost c = table@.len() as int;
                let ghost cur0 = cursor@;
                proof {
                    // the cursor word's boundary is the current position i
                    assert forall|j: int| i <= j < nb implies !lex_lt(
                        block_of(text, li, #[trigger] perm[j] as int),
                        cur0,
                    ) by {
                        if j > i {
                            lemma_le_trans(
                                cur0,
                                block_of(text, li, perm[i as int] as int),
                                block_of(text, li, perm[j] as int),
                            );
                        }
                    }
                    assert(is_boundary(text, li, perm, cur0, i as int));
                }
                table.push(i);
                cursor = lex_next(&cursor);
                proof {
                    lemma_all_t_rank(cur0);
                    assert(table@.len() == c + 1);
                    assert(forall|x: int| 0 <= x < c ==> table@[x] == table@.drop_last()[x]);
                    // every valid word of rank c equals the old cursor word
                    assert forall|u: Seq<u8>|
                        valid_word(u) && u.len() == li && rank_of(u) < table@.len()
                            implies is_boundary(
                        text,
                        li,
                        perm,
                        u,
                        (#[trigger] table@[rank_of(u) as int]) as int,
                    ) by {
                        if rank_of(u) == c {
                            lemma_rank_inj(u, cur0);
                        }
                    }
                    if table@.len() < p4 {
                        // the new cursor follows the old one in rank order
                        assert(!all_t(cur0));
                        assert(rank_of(cursor@) == c + 1);
                        lemma_lex_rank(cur0, cursor@);
                        assert forall|j: int| 0 <= j < i implies lex_lt(
                            block_of(text, li, #[trigger] perm[j] as int),
                            cursor@,
                        ) by {
                            lemma_lex_trans(
                                block_of(text, li, perm[j] as int),
                                cur0,
                                cursor@,
                            );
                        }
                    }
                }
            }
            proof {
                if table@.len() < p4 {
                    assert(lex_lt(block_of(text, li, perm[i as int] as int), cursor@));
                }
            }
            i += 1;
        }
        // ranks the walk never reached have no block at or above them
        while table.len() < p4
            invariant
                nb == perm.len(),
                text == text_rep@,
                perm == perm_array@,
                li == length as int,
                length >= 1,
                valid_word(text),
                text.len() >= 1,
                pow4(length as nat) <= usize::MAX,
                p4 as nat == pow4(length as nat),
                is_perm_of(perm, block_count(text.len() as int, li)),
                perm_sorted(text, li, perm),
                table@.len() <= p4,
                cursor@.len() == length,
                valid_word(cursor@),
                table@.len() < p4 ==> rank_of(cursor@) == table@.len(),
                forall|u: Seq<u8>|
                    valid_word(u) && u.len() == li && rank_of(u) < table@.len() ==> is_boundary(
                        text,
                        li,
                        perm,
                        u,
                        (#[trigger] table@[rank_of(u) as int]) as int,
                    ),
                table@.len() < p4 ==> (forall|j: int|
                    0 <= j < nb ==> lex_lt(
                        block_of(text, li, #[trigger] perm[j] as int),
                        cursor@,
                    )),
            decreases p4 - table@.len(),
        {
            let ghost c = table@.len() as int;
            let ghost cur0 = cursor@;
            proof {
                assert(is_boundary(text, li, perm, cur0, nb as int));
            }
            table.push(nb);
            cursor = lex_next(&cursor);
            proof {
                lemma_all_t_rank(cur0);
                assert(forall|x: int| 0 <= x < c ==> table@[x] == table@.drop_last()[x]);
                assert forall|u: Seq<u8>|
                    valid_word(u) && u.len() == li && rank_of(u) < table@.len()
                        implies is_boundary(
                    text,
                    li,
                    perm,
                    u,
                    (#[trigger] table@[rank_of(u) as int]) as int,
                ) by {
                    if rank_of(u) == c {
                        lemma_rank_inj(u, cur0);
                    }
                }
                if table@.len() < p4 {
                    assert(!all_t(cur0));
                    assert(rank_of(cursor@) == c + 1);
                    lemma_lex_rank(cur0, cursor@);
                    assert forall|j: int| 0 <= j < nb implies lex_lt(
                        block_of(text, li, #[trigger] perm[j] as int),
                        cursor@,
                    ) by {
                        lemma_lex_trans(block_of(text, li, perm[j] as int), cur0, cursor@);
                    }
                }
            }
        }
        proof {
            assert forall|u: Seq<u8>| valid_word(u) && u.len() == li implies is_boundary(
                text,
                li,
                perm,
                u,
                (#[trigger] table@[rank_of(u) as int]) as int,
            ) by {
                lemma_rank_bound(u);
            }
        }
        LookupTable {
            table,
            n_blocks: nb,
            text_g: Ghost(text_rep@),
            len_g: Ghost(length as int),
            perm_g: Ghost(perm_array@),
        }
    }

    fn _get_interval(&self, a: &Vec<u8>, length: usize) -> (r: (usize, usize)) {
        let ap = pad_to(a, length);
        proof {
            lemma_pad(a@, length as nat);
            lemma_rank_bound(ap@);
        }
        let lo_rank = lex_num(&ap);
        let lo = self.table[lo_rank];
        proof {
            assert(is_boundary(
                self.text_g@,
                self.len_g@,
                self.perm_g@,
                pad_word(a@, length as nat),
                lo as int,
            ));
        }
        if word_is_all_t(a) {
            (lo, self.n_blocks)
        } else {
            let nx = lex_next(a);
            let hp = pad_to(&nx, length);
            proof {
                lemma_next_word(a@);
                lemma_pad(nx@, length as nat);
                lemma_rank_bound(hp@);
            }
            let hi_rank = lex_num(&hp);
            let hi = self.table[hi_rank];
            proof {
                assert(is_boundary(
                    self.text_g@,
                    self.len_g@,
                    self.perm_g@,
                    pad_word(next_word(a@), length as nat),
                    hi as int,
                ));
                lemma_pad_next_lt(a@, length as nat);
                lemma_boundary_mono(
                    self.text_g@,
                    self.len_g@,
                    self.perm_g@,
                    pad_word(a@, length as nat),
                    pad_word(next_word(a@), length as nat),
                    lo as int,
                    hi as int,
                );
            }
            (lo, hi)
        }
    }
}

} // verus!
