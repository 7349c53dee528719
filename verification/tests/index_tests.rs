use block_index::bitvec::BitVector;
use block_index::index::{Index, IndexError};
use block_index::pointer::{LookupTable, PointerArray};
use block_index::blocks::build_perm;

const TEXT_A: &[u8] = b"ACGACGTACACGGTAACG";

#[test]
fn scenario_a_lookup_table() {
    // 6 blocks: ACG ACG TAC ACG GTA ACG; the ACG blocks are 0, 1, 3, 5
    let text: Vec<u8> = TEXT_A.to_vec();
    let index = Index::<LookupTable>::new(&text, 3).unwrap();
    let word: Vec<u8> = b"ACG".to_vec();
    let r = index.get_interval(&word, 3).unwrap();
    assert_eq!(r, &[0, 1, 3, 5]);
}

#[test]
fn scenario_a_bitvector() {
    let text: Vec<u8> = TEXT_A.to_vec();
    let index = Index::<BitVector>::new(&text, 3).unwrap();
    let word: Vec<u8> = b"ACG".to_vec();
    let r = index.get_interval(&word, 3).unwrap();
    assert_eq!(r, &[0, 1, 3, 5]);
}

fn all_words(len: usize) -> Vec<Vec<u8>> {
    let mut out: Vec<Vec<u8>> = vec![Vec::new()];
    for _ in 0..len {
        let mut next = Vec::new();
        for w in &out {
            for c in [b'A', b'C', b'G', b'T'] {
                let mut v = w.clone();
                v.push(c);
                next.push(v);
            }
        }
        out = next;
    }
    out
}

#[test]
fn cross_backend_equivalence_all_words() {
    // every word of length 1..=3 gives identical intervals on both backends
    let text: Vec<u8> = TEXT_A.to_vec();
    let lut = Index::<LookupTable>::new(&text, 3).unwrap();
    let bv = Index::<BitVector>::new(&text, 3).unwrap();
    for len in 1..=3usize {
        for w in all_words(len) {
            let a = lut.get_interval(&w, 3).unwrap();
            let b = bv.get_interval(&w, 3).unwrap();
            assert_eq!(a, b, "word {:?}", w);
        }
    }
}

#[test]
fn scenario_b_max_word_lookup_table() {
    // TTT is the lexicographic maximum: hi must be the permutation length
    let text: Vec<u8> = TEXT_A.to_vec();
    let perm = build_perm(&text, 3);
    let word: Vec<u8> = b"TTT".to_vec();
    let lut = <LookupTable as PointerArray>::new(&text, &perm, 3);
    let (lo, hi) = lut._get_interval(&word, 3);
    assert_eq!(hi, perm.len());
    assert!(lo <= hi);
    assert_eq!((lo, hi), (6, 6));
}

#[test]
fn scenario_b_max_word_bitvector() {
    let text: Vec<u8> = TEXT_A.to_vec();
    let perm = build_perm(&text, 3);
    let word: Vec<u8> = b"TTT".to_vec();
    let bv = <BitVector as PointerArray>::new(&text, &perm, 3);
    let (lo, hi) = bv._get_interval(&word, 3);
    assert_eq!(hi, perm.len());
    assert!(lo <= hi);
    assert_eq!((lo, hi), (6, 6));
}

#[test]
fn scenario_b_max_word_through_index() {
    let text: Vec<u8> = TEXT_A.to_vec();
    let index = Index::<BitVector>::new(&text, 3).unwrap();
    let word: Vec<u8> = b"TTT".to_vec();
    let r = index.get_interval(&word, 3).unwrap();
    assert_eq!(r, &[] as &[usize]);
}

#[test]
fn scenario_c_short_final_block() {
    // length 17 is not a multiple of 3: the final block is "AC"
    let text: Vec<u8> = TEXT_A[..17].to_vec();
    let word: Vec<u8> = b"ACG".to_vec();
    let lut = Index::<LookupTable>::new(&text, 3).unwrap();
    let bv = Index::<BitVector>::new(&text, 3).unwrap();
    // blocks: ACG ACG TAC ACG GTA AC — only 0, 1, 3 are ACG now
    assert_eq!(lut.get_interval(&word, 3).unwrap(), &[0, 1, 3]);
    assert_eq!(bv.get_interval(&word, 3).unwrap(), &[0, 1, 3]);
    // the short block "AC" sorts before every full block starting with AC
    let ac: Vec<u8> = b"AC".to_vec();
    assert_eq!(lut.get_interval(&ac, 3).unwrap(), bv.get_interval(&ac, 3).unwrap());
}

#[test]
fn query_contains_each_full_block() {
    // querying a block's own content returns an interval containing it
    let text: Vec<u8> = TEXT_A.to_vec();
    let index = Index::<LookupTable>::new(&text, 3).unwrap();
    for b in 0..6usize {
        let word: Vec<u8> = text[b * 3..(b + 1) * 3].to_vec();
        let r = index.get_interval(&word, 3).unwrap();
        assert!(r.contains(&b), "block {} missing from {:?}", b, r);
    }
}

#[test]
fn shorter_word_interval_is_superset() {
    let text: Vec<u8> = TEXT_A.to_vec();
    let index = Index::<BitVector>::new(&text, 3).unwrap();
    let short: Vec<u8> = b"AC".to_vec();
    let outer = index.get_interval(&short, 3).unwrap().to_vec();
    for c in [b'A', b'C', b'G', b'T'] {
        let mut w = short.clone();
        w.push(c);
        let inner = index.get_interval(&w, 3).unwrap();
        for e in inner {
            assert!(outer.contains(e), "completion {:?}: {} not in {:?}", w, e, outer);
        }
    }
}

#[test]
fn repeated_queries_identical() {
    let text: Vec<u8> = TEXT_A.to_vec();
    let index = Index::<LookupTable>::new(&text, 3).unwrap();
    let word: Vec<u8> = b"GTA".to_vec();
    let first = index.get_interval(&word, 3).unwrap().to_vec();
    let second = index.get_interval(&word, 3).unwrap().to_vec();
    assert_eq!(first, second);
    assert_eq!(first, vec![4]);
}

#[test]
fn construction_rejects_zero_block_length() {
    let text: Vec<u8> = TEXT_A.to_vec();
    match Index::<LookupTable>::new(&text, 0) {
        Err(e) => assert_eq!(e, IndexError::ZeroBlockLength),
        Ok(_) => panic!("expected rejection"),
    }
}

#[test]
fn construction_rejects_empty_text() {
    let text: Vec<u8> = Vec::new();
    match Index::<LookupTable>::new(&text, 3) {
        Err(e) => assert_eq!(e, IndexError::EmptyText),
        Ok(_) => panic!("expected rejection"),
    }
}

#[test]
fn construction_rejects_invalid_symbol() {
    let text: Vec<u8> = b"ACGX".to_vec();
    match Index::<BitVector>::new(&text, 2) {
        Err(e) => assert_eq!(e, IndexError::InvalidSymbol),
        Ok(_) => panic!("expected rejection"),
    }
}

#[test]
fn construction_rejects_oversized_block_length() {
    let text: Vec<u8> = b"ACGT".to_vec();
    match Index::<LookupTable>::new(&text, 200) {
        Err(e) => assert_eq!(e, IndexError::BlockLengthTooLarge),
        Ok(_) => panic!("expected rejection"),
    }
}

#[test]
fn query_rejects_length_mismatch() {
    let text: Vec<u8> = TEXT_A.to_vec();
    let index = Index::<LookupTable>::new(&text, 3).unwrap();
    let word: Vec<u8> = b"AC".to_vec();
    assert_eq!(index.get_interval(&word, 2).unwrap_err(), IndexError::LengthMismatch);
}

#[test]
fn query_rejects_empty_word() {
    let text: Vec<u8> = TEXT_A.to_vec();
    let index = Index::<LookupTable>::new(&text, 3).unwrap();
    let word: Vec<u8> = Vec::new();
    assert_eq!(index.get_interval(&word, 3).unwrap_err(), IndexError::EmptyWord);
}

#[test]
fn query_rejects_long_word() {
    let text: Vec<u8> = TEXT_A.to_vec();
    let index = Index::<LookupTable>::new(&text, 3).unwrap();
    let word: Vec<u8> = b"ACGT".to_vec();
    assert_eq!(index.get_interval(&word, 3).unwrap_err(), IndexError::WordTooLong);
}

#[test]
fn query_rejects_invalid_symbol() {
    let text: Vec<u8> = TEXT_A.to_vec();
    let index = Index::<BitVector>::new(&text, 3).unwrap();
    let word: Vec<u8> = b"AXG".to_vec();
    assert_eq!(index.get_interval(&word, 3).unwrap_err(), IndexError::InvalidSymbol);
}

#[test]
fn block_length_one() {
    let text: Vec<u8> = b"GATTACA".to_vec();
    let index = Index::<BitVector>::new(&text, 1).unwrap();
    let a: Vec<u8> = b"A".to_vec();
    // symbols: G A T T A C A -> A at 1, 4, 6
    assert_eq!(index.get_interval(&a, 1).unwrap(), &[1, 4, 6]);
    let t: Vec<u8> = b"T".to_vec();
    assert_eq!(index.get_interval(&t, 1).unwrap(), &[2, 3]);
}

#[test]
fn text_containing_maximum_block() {
    // a TTT block makes the build walk the cursor up to the last rank
    let text: Vec<u8> = b"TTTACG".to_vec();
    let lut = Index::<LookupTable>::new(&text, 3).unwrap();
    let bv = Index::<BitVector>::new(&text, 3).unwrap();
    let ttt: Vec<u8> = b"TTT".to_vec();
    let acg: Vec<u8> = b"ACG".to_vec();
    assert_eq!(lut.get_interval(&ttt, 3).unwrap(), &[0]);
    assert_eq!(bv.get_interval(&ttt, 3).unwrap(), &[0]);
    assert_eq!(lut.get_interval(&acg, 3).unwrap(), &[1]);
    assert_eq!(bv.get_interval(&acg, 3).unwrap(), &[1]);
}
