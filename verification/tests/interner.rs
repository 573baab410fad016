use klang::sym::{Interner, Sym};

#[test]
fn interning_is_idempotent() {
    let mut interner = Interner::new();
    let a = interner.intern(b"alpha");
    let b = interner.intern(b"beta");
    assert_ne!(a, b);
    assert_eq!(interner.intern(b"alpha"), a);
    assert_eq!(interner.intern(b"beta"), b);
    assert_eq!(Sym::new(&mut interner, b"alpha"), a);
    assert_eq!(interner.len(), 2);
}

#[test]
fn lookup_gives_the_bytes_back() {
    let mut interner = Interner::new();
    let names: [&[u8]; 5] = [b"x", b"", b"a.b:c", b"\xff\x00", b"x1"];
    let syms: Vec<Sym> = names.iter().map(|n| interner.intern(n)).collect();
    for (name, sym) in names.iter().zip(&syms) {
        assert_eq!(interner.lookup(*sym), *name);
    }
}

#[test]
fn handles_are_issued_in_sequence() {
    let mut interner = Interner::new();
    assert_eq!(interner.intern(b"a"), Sym(0));
    assert_eq!(interner.intern(b"b"), Sym(1));
    assert_eq!(interner.intern(b"a"), Sym(0));
    assert_eq!(interner.intern(b"c"), Sym(2));
}

#[test]
fn names_survive_new_blocks() {
    let mut interner = Interner::new();
    let mut syms = Vec::new();
    let mut names = Vec::new();
    for i in 0..300usize {
        let name = format!("name-{}-{}", i, "x".repeat(i * 7 % 97)).into_bytes();
        syms.push(interner.intern(&name));
        names.push(name);
    }
    let big = vec![b'z'; 100_000];
    let big_sym = interner.intern(&big);
    let after = interner.intern(b"after");
    for (name, sym) in names.iter().zip(&syms) {
        assert_eq!(interner.lookup(*sym), &name[..]);
        assert_eq!(interner.intern(name), *sym);
    }
    assert_eq!(interner.lookup(big_sym), &big[..]);
    assert_eq!(interner.lookup(after), b"after");
    assert_eq!(interner.len(), 302);
}

#[test]
fn order_is_by_content() {
    let mut interner = Interner::new();
    let b = interner.intern(b"b");
    let a = interner.intern(b"a");
    let ab = interner.intern(b"ab");
    let empty = interner.intern(b"");
    assert!(interner.less(a, b));
    assert!(!interner.less(b, a));
    assert!(interner.less(a, ab));
    assert!(interner.less(ab, b));
    assert!(interner.less(empty, a));
    assert!(!interner.less(a, a));
    assert!(!interner.less(a, empty));
}
