use truecase::bytes::{bytes_eq, copy_bytes, lex_le_bytes};
use truecase::tokenizer::to_lower_bytes;

#[test]
fn bytes_eq_basic() {
    assert!(bytes_eq(b"abc", b"abc"));
    assert!(!bytes_eq(b"abc", b"abd"));
    assert!(!bytes_eq(b"abc", b"ab"));
    assert!(bytes_eq(b"", b""));
}

#[test]
fn copy_bytes_copies() {
    let v = copy_bytes(b"hello");
    assert_eq!(v.as_slice(), b"hello");
}

#[test]
fn lex_le_orders_bytes() {
    assert!(lex_le_bytes(b"", b"a"));
    assert!(lex_le_bytes(b"a", b"a"));
    assert!(lex_le_bytes(b"AA", b"Aa"));
    assert!(!lex_le_bytes(b"Aa", b"AA"));
    assert!(lex_le_bytes(b"ab", b"abc"));
    assert!(!lex_le_bytes(b"abc", b"ab"));
}

#[test]
fn lowercase_fold_is_ascii_only() {
    assert_eq!(to_lower_bytes(b"NaSa 42!").as_slice(), b"nasa 42!");
    let s = "CAF\u{c9}".as_bytes();
    // Only ASCII letters fold; non-ASCII bytes pass through unchanged.
    assert_eq!(to_lower_bytes(s).as_slice(), "caf\u{c9}".as_bytes());
}
