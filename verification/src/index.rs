use vstd::prelude::*;
use vstd::slice::slice_subrange;
use crate::codec::{valid_word, all_t, pow4, pad_word, next_word, check_symbols, try_pow4,
    pad_to};
use crate::blocks::{block_count, is_perm_of, perm_sorted, is_boundary, boundary_of,
    lemma_boundary_unique, build_perm};
use crate::pointer::PointerArray;

verus! {

/// Why a construction or a query was rejected.
#[derive(Debug, Clone, Copy, PartialEq, Eq, Structural)]
pub enum IndexError {
    ZeroBlockLength,
    EmptyText,
    InvalidSymbol,
    BlockLengthTooLarge,
    LengthMismatch,
    EmptyWord,
    WordTooLong,
}

/// The interval start for query word a: the boundary of the word padded with
/// the minimum symbol to block length.
pub open spec fn query_lo(text: Seq<u8>, l: int, p: Seq<usize>, a: Seq<u8>) -> int {
    boundary_of(text, l, p, pad_word(a, l as nat))
}

/// The interval end for query word a: the boundary of the padded successor
/// word, or the end of the permutation array when a is all T, since the
/// greatest word has no successor.
pub open spec fn query_hi(text: Seq<u8>, l: int, p: Seq<usize>, a: Seq<u8>) -> int {
    if all_t(a) {
        p.len() as int
    } else {
        boundary_of(text, l, p, pad_word(next_word(a), l as nat))
    }
}

/// The index: the text, the permutation array of block indices sorted by
/// block content, and one boundary backend.
pub struct Index<B: PointerArray> {
    text_rep: Vec<u8>,
    perm_array: Vec<usize>,
    pointer_array: B,
    subword_len: usize,
}

impl<B: PointerArray> Index<B> {
    /// All parts agree: the backend was built over this text, block length
    /// and permutation, and the permutation lists all blocks in sorted order.
    pub closed spec fn wf(&self) -> bool {
        &&& self.subword_len >= 1
        &&& valid_word(self.text_rep@)
        &&& self.text_rep@.len() >= 1
        &&& pow4(self.subword_len as nat) <= usize::MAX
        &&& is_perm_of(
            self.perm_array@,
            block_count(self.text_rep@.len() as int, self.subword_len as int),
        )
        &&& perm_sorted(self.text_rep@, self.subword_len as int, self.perm_array@)
        &&& self.pointer_array.wf()
        &&& self.pointer_array.text_model() == self.text_rep@
        &&& self.pointer_array.block_len() == self.subword_len as int
        &&& self.pointer_array.perm() == self.perm_array@
    }

    pub closed spec fn text(&self) -> Seq<u8> {
        self.text_rep@
    }

    pub closed spec fn block_len(&self) -> int {
        self.subword_len as int
    }

    pub closed spec fn perm(&self) -> Seq<usize> {
        self.perm_array@
    }

    /// Build an index over the text with the given block length. The inputs
    /// are validated once here: construction succeeds exactly when the block
    /// length is positive, the text is nonempty and over the alphabet, and
    /// the table size 4^length fits the machine.
    pub fn new(text: &Vec<u8>, subword_len: usize) -> (r: Result<Self, IndexError>)
        ensures
            match r {
                Ok(idx) => {
                    &&& idx.wf()
                    &&& idx.text() == text@
                    &&& idx.block_len() == subword_len as int
                    &&& is_perm_of(
                        idx.perm(),
                        block_count(text@.len() as int, subword_len as int),
                    )
                    &&& perm_sorted(text@, subword_len as int, idx.perm())
                    &&& subword_len >= 1
                    &&& text@.len() >= 1
                    &&& valid_word(text@)
                    &&& pow4(subword_len as nat) <= usize::MAX
                },
                Err(e) => {
                    &&& (subword_len == 0 || text@.len() == 0 || !valid_word(text@) || pow4(
                        subword_len as nat,
                    ) > usize::MAX)
                    &&& (e == IndexError::ZeroBlockLength <==> subword_len == 0)
                    &&& (e == IndexError::EmptyText <==> subword_len >= 1 && text@.len() == 0)
                    &&& (e == IndexError::InvalidSymbol <==> subword_len >= 1 && text@.len() >= 1
                        && !valid_word(text@))
                    &&& (e == IndexError::BlockLengthTooLarge <==> subword_len >= 1 && text@.len()
                        >= 1 && valid_word(text@) && pow4(subword_len as nat) > usize::MAX)
                },
            },
    {
        if subword_len == 0 {
            return Err(IndexError::ZeroBlockLength);
        }
        if text.len() == 0 {
            return Err(IndexError::EmptyText);
        }
        if !check_symbols(text) {
            return Err(IndexError::InvalidSymbol);
        }
        match try_pow4(subword_len) {
            None => Err(IndexError::BlockLengthTooLarge),
            Some(_) => {
                let perm = build_perm(text, subword_len);
                let pointer_array = B::new(text, &perm, subword_len);
                let text_copy = pad_to(text, text.len());
                proof {
                    assert(text_copy@ =~= text@);
                }
                Ok(
                    Index {
                        text_rep: text_copy,
                        perm_array: perm,
                        pointer_array,
                        subword_len,
                    },
                )
            },
        }
    }

    /// Query: the slice of the permutation array whose blocks match or extend
    /// the word a, i.e. lie between the padded word and its padded successor.
    /// The query is total over valid words of length 1..=block length; other
    /// inputs are rejected. The interval bounds always satisfy
    /// 0 <= lo <= hi <= permutation length.
    pub fn get_interval<'a>(&'a self, a: &Vec<u8>, length: usize) -> (r: Result<
        &'a [usize],
        IndexError,
    >)
        requires
            self.wf(),
        ensures
            match r {
                Ok(v) => {
                    &&& length as int == self.block_len()
                    &&& 1 <= a@.len() <= length
                    &&& valid_word(a@)
                    &&& is_boundary(
                        self.text(),
                        self.block_len(),
                        self.perm(),
                        pad_word(a@, length as nat),
                        query_lo(self.text(), self.block_len(), self.perm(), a@),
                    )
                    &&& (!all_t(a@) ==> is_boundary(
                        self.text(),
                        self.block_len(),
                        self.perm(),
                        pad_word(next_word(a@), length as nat),
                        query_hi(self.text(), self.block_len(), self.perm(), a@),
                    ))
                    &&& 0 <= query_lo(self.text(), self.block_len(), self.perm(), a@) <= query_hi(
                        self.text(),
                        self.block_len(),
                        self.perm(),
                        a@,
                    ) <= self.perm().len()
                    &&& v@ == self.perm().subrange(
                        query_lo(self.text(), self.block_len(), self.perm(), a@),
                        query_hi(self.text(), self.block_len(), self.perm(), a@),
                    )
                },
                Err(e) => {
                    &&& !(length as int == self.block_len() && 1 <= a@.len() && a@.len() <= length
                        && valid_word(a@))
                    &&& (e == IndexError::LengthMismatch <==> length as int != self.block_len())
                    &&& (e == IndexError::EmptyWord <==> length as int == self.block_len()
                        && a@.len() == 0)
                    &&& (e == IndexError::WordTooLong <==> length as int == self.block_len()
                        && a@.len() >= 1 && a@.len() > length)
                    &&& (e == IndexError::InvalidSymbol <==> length as int == self.block_len() && 1
                        <= a@.len() <= length && !valid_word(a@))
                },
            },
    {
        if length != self.subword_len {
            return Err(IndexError::LengthMismatch);
        }
        if a.len() == 0 {
            return Err(IndexError::EmptyWord);
        }
        if a.len() > length {
            return Err(IndexError::WordTooLong);
        }
        if !check_symbols(a) {
            return Err(IndexError::InvalidSymbol);
        }
        let (i0, i1) = self.pointer_array._get_interval(a, length);
        proof {
            let t = self.text_rep@;
            let l = self.subword_len as int;
            let p = self.perm_array@;
            let ulo = pad_word(a@, length as nat);
            assert(is_boundary(t, l, p, ulo, i0 as int));
            lemma_boundary_unique(t, l, p, ulo, i0 as int, boundary_of(t, l, p, ulo));
            if !all_t(a@) {
                let uhi = pad_word(next_word(a@), length as nat);
                assert(is_boundary(t, l, p, uhi, i1 as int));
                lemma_boundary_unique(t, l, p, uhi, i1 as int, boundary_of(t, l, p, uhi));
            }
        }
        let s = slice_subrange(self.perm_array.as_slice(), i0, i1);
        Ok(s)
    }
}

} // verus!
