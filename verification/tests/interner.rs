use pxp_symbol::symbol::SymbolTable;

#[test]
fn it_can_be_created() {
    let _ = SymbolTable::new();
}

#[test]
fn it_can_intern_a_symbol() {
    let mut symbols = SymbolTable::new();
    let sample_text = b"Hello, world!";

    assert_eq!(symbols.intern(sample_text), 1);
}

#[test]
fn it_can_resolve_a_symbol() {
    let mut symbols = SymbolTable::new();
    let sample_text = b"Hello, world!";

    let symbol = symbols.intern(sample_text);

    assert_eq!(symbols.resolve(symbol), Some(sample_text.as_slice()));
}

#[test]
fn intern_is_idempotent() {
    let mut symbols = SymbolTable::new();

    let first = symbols.intern(b"Hello, world!");
    let second = symbols.intern(b"Hello, world!");

    assert_eq!(first, 1);
    assert_eq!(second, 1);
    assert_eq!(symbols.resolve(1), Some(b"Hello, world!".as_slice()));
}

#[test]
fn distinct_contents_get_distinct_symbols() {
    let mut symbols = SymbolTable::new();

    let a = symbols.intern(b"foo");
    let b = symbols.intern(b"bar");
    let empty = symbols.intern(b"");

    assert_ne!(a, b);
    assert_ne!(a, empty);
    assert_ne!(b, empty);
}

#[test]
fn resolve_round_trips() {
    let mut symbols = SymbolTable::new();

    let a = symbols.intern(b"foo");
    let b = symbols.intern(b"bar");
    let c = symbols.intern(b"");

    assert_eq!(symbols.resolve(a), Some(b"foo".as_slice()));
    assert_eq!(symbols.resolve(b), Some(b"bar".as_slice()));
    assert_eq!(symbols.resolve(c), Some(b"".as_slice()));
}

#[test]
fn find_before_and_after_intern() {
    let mut symbols = SymbolTable::new();

    assert_eq!(symbols.find(b"foo"), None);

    let symbol = symbols.intern(b"foo");

    assert_eq!(symbols.find(b"foo"), Some(symbol));
}

#[test]
fn must_find_returns_the_interned_handle() {
    let mut symbols = SymbolTable::new();

    let symbol = symbols.intern(b"foo");

    assert_eq!(symbols.must_find(b"foo"), symbol);
}

#[test]
fn fresh_table_resolves_the_sentinel() {
    let symbols = SymbolTable::new();

    assert_eq!(symbols.resolve(0), Some(b"".as_slice()));
    assert_eq!(symbols.resolve(1), None);
}

#[test]
fn coagulate_of_nothing_is_the_sentinel() {
    let mut symbols = SymbolTable::new();

    assert_eq!(symbols.coagulate(&[], None), 0);
    assert_eq!(symbols.coagulate(&[], Some(b",")), 0);
}

#[test]
fn coagulate_of_one_symbol_returns_it_unchanged() {
    let mut symbols = SymbolTable::new();

    let foo = symbols.intern(b"foo");

    assert_eq!(symbols.coagulate(&[foo], None), foo);
    assert_eq!(symbols.coagulate(&[foo], Some(b",")), foo);

    let joined = symbols.coagulate(&[foo, foo], Some(b"-"));
    assert_eq!(symbols.coagulate(&[joined], Some(b",")), joined);
}

#[test]
fn coagulate_inserts_the_separator_between_parts() {
    let mut symbols = SymbolTable::new();

    let a = symbols.intern(b"foo");
    let b = symbols.intern(b"bar");

    let joined = symbols.coagulate(&[a, b], Some(b","));

    assert_eq!(symbols.resolve(joined), Some(b"foo,bar".as_slice()));
    assert_eq!(symbols.coagulate(&[a, b], Some(b",")), joined);
}

#[test]
fn coagulate_without_separator_concatenates_directly() {
    let mut symbols = SymbolTable::new();

    let a = symbols.intern(b"foo");
    let b = symbols.intern(b"bar");

    let joined = symbols.coagulate(&[a, b], None);

    assert_eq!(symbols.resolve(joined), Some(b"foobar".as_slice()));
}

#[test]
fn coagulate_deduplicates_against_directly_interned_content() {
    let mut symbols = SymbolTable::new();

    let a = symbols.intern(b"foo");
    let b = symbols.intern(b"bar");
    let direct = symbols.intern(b"foo,bar");

    assert_eq!(symbols.coagulate(&[a, b], Some(b",")), direct);
}

#[test]
fn rebuilding_in_assignment_order_reproduces_handles() {
    let mut symbols = SymbolTable::new();
    symbols.intern(b"foo");
    symbols.intern(b"bar");
    symbols.coagulate(&[1, 2], Some(b"::"));

    let mut store: Vec<Vec<u8>> = Vec::new();
    let mut symbol = 0usize;
    while let Some(bytes) = symbols.resolve(symbol) {
        store.push(bytes.to_vec());
        symbol += 1;
    }

    let mut rebuilt = SymbolTable::new();
    for (expected, bytes) in store.iter().enumerate() {
        assert_eq!(rebuilt.intern(bytes), expected);
    }
    assert_eq!(rebuilt.resolve(3), Some(b"foo::bar".as_slice()));
}

#[test]
fn a_default_table_matches_a_fresh_one() {
    let mut symbols = SymbolTable::default();

    assert_eq!(symbols.resolve(0), Some(b"".as_slice()));
    assert_eq!(symbols.resolve(1), None);
    assert_eq!(symbols.intern(b"Hello, world!"), 1);
}
