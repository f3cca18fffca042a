use pervade::ids::SymbolRef;
use pervade::symbols::SymbolMap;
use pervade::symbols::Symbols;

fn two_tables() -> Symbols {
    let mut t0 = SymbolMap::new();
    t0.create_symbol(String::from("a"));
    t0.create_symbol(String::from("b"));
    let mut t1 = SymbolMap::new();
    t1.create_symbol(String::from("c"));
    Symbols::new(vec![t0, t1])
}

#[test]
fn test_union_merges_classes() {
    let mut symbols = two_tables();
    let a = SymbolRef { owner: 0, symbol: 0 };
    let b = SymbolRef { owner: 0, symbol: 1 };
    let c = SymbolRef { owner: 1, symbol: 0 };
    assert_eq!(symbols.par_get_canonical_ref(a), a);
    symbols.union(a, c);
    assert_eq!(symbols.par_get_canonical_ref(a), c);
    assert_eq!(symbols.par_get_canonical_ref(b), b);
    symbols.union(b, a);
    assert_eq!(symbols.par_get_canonical_ref(b), c);
    assert_eq!(symbols.get_original_name(symbols.par_get_canonical_ref(b)), "c");
}

#[test]
fn test_union_idempotent() {
    let mut symbols = two_tables();
    let a = SymbolRef { owner: 0, symbol: 0 };
    let c = SymbolRef { owner: 1, symbol: 0 };
    symbols.union(a, c);
    symbols.union(a, c);
    symbols.union(c, a);
    assert_eq!(symbols.par_get_canonical_ref(a), symbols.par_get_canonical_ref(c));
    // the mutating variant agrees with the read-only variant and is
    // idempotent
    let first = symbols.get_canonical_ref(a);
    let second = symbols.get_canonical_ref(first);
    assert_eq!(first, second);
    assert_eq!(first, symbols.par_get_canonical_ref(a));
}

#[test]
fn test_create_symbol_extends_table() {
    let mut symbols = two_tables();
    let sym = symbols.create_symbol(1, String::from("d"));
    let d = SymbolRef { owner: 1, symbol: sym };
    assert_eq!(symbols.get_original_name(d), "d");
    assert_eq!(symbols.par_get_canonical_ref(d), d);
}
