use block_index::{lex_next, lex_num, rounded};

#[test]
fn rounded_exact_and_partial() {
    assert_eq!(rounded(18, 3), 6);
    assert_eq!(rounded(17, 3), 6);
    assert_eq!(rounded(1, 3), 1);
    assert_eq!(rounded(0, 3), 0);
    assert_eq!(rounded(5, 1), 5);
}

#[test]
fn lex_num_values() {
    assert_eq!(lex_num(&b"A".to_vec()), 0);
    assert_eq!(lex_num(&b"T".to_vec()), 3);
    assert_eq!(lex_num(&b"ACG".to_vec()), 0 * 16 + 1 * 4 + 2);
    assert_eq!(lex_num(&b"TTT".to_vec()), 63);
    assert_eq!(lex_num(&b"GATT".to_vec()), 2 * 64 + 0 * 16 + 3 * 4 + 3);
}

#[test]
fn lex_next_simple_increment() {
    assert_eq!(lex_next(&b"ACG".to_vec()), b"ACT".to_vec());
    assert_eq!(lex_next(&b"A".to_vec()), b"C".to_vec());
}

#[test]
fn lex_next_carries() {
    assert_eq!(lex_next(&b"ATT".to_vec()), b"CAA".to_vec());
    assert_eq!(lex_next(&b"CGT".to_vec()), b"CTA".to_vec());
}

#[test]
fn lex_next_wraps_at_maximum() {
    assert_eq!(lex_next(&b"TTT".to_vec()), b"AAA".to_vec());
    assert_eq!(lex_next(&b"T".to_vec()), b"A".to_vec());
}

#[test]
fn lex_next_then_lex_num_increments_rank() {
    let w: Vec<u8> = b"CGTA".to_vec();
    assert_eq!(lex_num(&lex_next(&w)), lex_num(&w) + 1);
}
