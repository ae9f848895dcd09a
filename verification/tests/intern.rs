use rengine::intern::{InternedStr, Interner};

#[test]
fn test_str_interned() {
    let s = "foo";
    let mut interner = Interner::new();
    let i = interner.intern(s);

    assert_eq!("foo", interner.get_str(i));
}

#[test]
fn intern_same_string_twice_gives_same_handle() {
    let mut interner = Interner::new();
    let a = interner.intern("alpha");
    let b = interner.intern("beta");
    let a2 = interner.intern("alpha");
    assert_eq!(a, a2);
    assert_ne!(a, b);
    assert_eq!(a, InternedStr(0));
    assert_eq!(b, InternedStr(1));
    assert_eq!(interner.get_str(b), "beta");
}

#[test]
fn intern_empty_and_unicode() {
    let mut interner = Interner::new();
    let e = interner.intern("");
    let u = interner.intern("黑风");
    assert_eq!(interner.get_str(e), "");
    assert_eq!(interner.get_str(u), "黑风");
    assert_eq!(interner.intern("黑风"), u);
}

#[test]
fn interner_default_is_empty() {
    let mut interner = Interner::default();
    assert_eq!(interner.len(), 0);
    assert_eq!(interner.intern("x"), InternedStr(0));
    assert_eq!(interner.len(), 1);
}

#[test]
fn handle_reads_back_after_more_interning() {
    let mut interner = Interner::new();
    let id = interner.intern("first");
    for i in 0..50 {
        interner.intern(&format!("s{}", i));
        interner.intern("first");
    }
    assert_eq!(interner.get_str(id), "first");
    assert_eq!(interner.len(), 51);
}
