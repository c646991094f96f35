use gliderlist::text::{bytes_eq, lex_le_bytes};

#[test]
fn lex_le_orders_bytewise() {
    let a = b"ASW 20".to_vec();
    let b = b"ASW 22".to_vec();
    assert!(lex_le_bytes(&a, &b));
    assert!(!lex_le_bytes(&b, &a));
}

#[test]
fn lex_le_is_reflexive() {
    let a = b"Discus".to_vec();
    assert!(lex_le_bytes(&a, &a));
}

#[test]
fn prefix_orders_before_extension() {
    let short = b"LS4".to_vec();
    let long = b"LS4a".to_vec();
    assert!(lex_le_bytes(&short, &long));
    assert!(!lex_le_bytes(&long, &short));
}

#[test]
fn empty_orders_first() {
    let empty: Vec<u8> = Vec::new();
    let a = b"A".to_vec();
    assert!(lex_le_bytes(&empty, &a));
    assert!(!lex_le_bytes(&a, &empty));
    assert!(lex_le_bytes(&empty, &empty));
}

#[test]
fn bytes_eq_compares_content() {
    assert!(bytes_eq(&b"Ka 6".to_vec(), &b"Ka 6".to_vec()));
    assert!(!bytes_eq(&b"Ka 6".to_vec(), &b"Ka 8".to_vec()));
    assert!(!bytes_eq(&b"Ka 6".to_vec(), &b"Ka 6 ".to_vec()));
}
