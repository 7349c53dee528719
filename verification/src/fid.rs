use vstd::prelude::*;

verus! {

#[verifier::external_type_specification]
#[verifier::external_body]
pub struct ExFid(fid_rs::Fid);

/// The bit sequence a Fid was built over.
pub uninterp spec fn fid_bits(f: fid_rs::Fid) -> Seq<bool>;

/// Number of true bits in a bit sequence.
pub open spec fn count_true(s: Seq<bool>) -> nat
    decreases s.len(),
{
    if s.len() == 0 {
        0
    } else {
        count_true(s.drop_last()) + if s.last() {
            1nat
        } else {
            0nat
        }
    }
}

pub proof fn lemma_count_true_le(s: Seq<bool>)
    ensures
        count_true(s) <= s.len(),
    decreases s.len(),
{
    if s.len() > 0 {
        lemma_count_true_le(s.drop_last());
    }
}

/// Number of false bits in a bit sequence.
pub open spec fn count_false(s: Seq<bool>) -> nat {
    (s.len() - count_true(s)) as nat
}

/// Position p holds the k-th one bit of the sequence, ones counted from 1.
pub open spec fn is_sel(bits: Seq<bool>, k: int, p: int) -> bool {
    &&& 0 <= p < bits.len()
    &&& bits[p]
    &&& count_true(bits.take(p + 1)) == k
}

/// Relies on fid_rs::Fid::from(&[bool]): the dictionary is built over exactly
/// the given bits. The constructor panics on an empty slice, so at least one
/// bit is required.
#[verifier::external_body]
pub(crate) fn fid_from_bits(bits: &Vec<bool>) -> (r: fid_rs::Fid)
    requires
        bits@.len() >= 1,
    ensures
        fid_bits(r) == bits@,
{
    fid_rs::Fid::from(bits.as_slice())
}

/// Relies on fid_rs::Fid::rank0: the number of 0 bits at positions [0, i].
/// It panics when i is not below the bit length, so that case is excluded.
#[verifier::external_body]
pub(crate) fn fid_rank0(f: &fid_rs::Fid, i: u64) -> (r: u64)
    requires
        i < fid_bits(*f).len(),
    ensures
        r == count_false(fid_bits(*f).take(i as int + 1)),
{
    f.rank0(i)
}

/// Relies on fid_rs::Fid::select: the position of the num-th 1 bit, ones
/// counted from 1, or None when there are fewer than num ones. It panics when
/// num exceeds the bit length, so that case is excluded.
#[verifier::external_body]
pub(crate) fn fid_select(f: &fid_rs::Fid, num: u64) -> (r: Option<u64>)
    requires
        1 <= num <= fid_bits(*f).len(),
    ensures
        match r {
            Some(p) => is_sel(fid_bits(*f), num as int, p as int),
            None => count_true(fid_bits(*f)) < num,
        },
{
    f.select(num)
}

} // verus!
