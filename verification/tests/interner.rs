use mochi_brain::interner::{Interner, UNK};

#[test]
fn intern_is_idempotent_and_resolves() {
    let mut i = Interner::new();
    let a = i.intern("你好");
    let b = i.intern("hello");
    assert_eq!(i.intern("你好"), a);
    assert_ne!(a, b);
    assert_eq!(i.resolve(a), "你好");
    assert_eq!(i.get("hello"), Some(b));
    assert_eq!(i.get("missing"), None);
    assert_eq!(i.len(), 2);
}

#[test]
fn ids_are_positions_in_first_seen_order() {
    let mut i = Interner::new();
    assert_eq!(i.intern("<s>"), 0);
    assert_eq!(i.intern("a"), 1);
    assert_eq!(i.intern("<s>"), 0);
    assert_eq!(i.intern("b"), 2);
    assert_ne!(UNK, 2);
}

#[test]
fn est_bytes_counts_each_token_twice_plus_overhead() {
    let mut i = Interner::new();
    i.intern("ab");
    i.intern("你");
    // (2 + 3) bytes, twice, plus 48 per token
    assert_eq!(i.est_bytes(), 2 * 5 + 2 * 48);
}
