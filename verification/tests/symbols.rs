use rust_kb::symbols::SymbolTable;

#[test]
fn interning() {
    let mut tab = SymbolTable::new();

    let a0 = tab.intern("a");
    let a1 = tab.intern("a");
    let b = tab.intern("b");

    assert_eq!(a0, a1);
    assert_ne!(a0, b);
}

#[test]
fn variable() {
    let mut tab = SymbolTable::new();

    let a = tab.intern("ab");
    let b = tab.intern("?a");

    assert_eq!(a.is_var(), false);
    assert_eq!(b.is_var(), true)
}

#[test]
fn empty_name_is_a_constant() {
    let mut tab = SymbolTable::new();
    let e = tab.intern("");
    assert_eq!(e.is_var(), false);
    assert_eq!(e.as_str(), "");
}

#[test]
fn symbol_keeps_its_text() {
    let mut tab = SymbolTable::new();
    let s = tab.intern("?who");
    assert_eq!(s.as_str(), "?who");
    assert_eq!(s.clone(), s);
    assert_eq!(s.clone().as_str(), "?who");
}

#[test]
fn same_text_from_two_tables_is_two_symbols() {
    let mut one = SymbolTable::new();
    let mut two = SymbolTable::new();
    let a = one.intern("a");
    let b = two.intern("a");
    assert_ne!(a, b);
    assert_eq!(a.as_str(), b.as_str());
}

#[test]
fn constant_and_variable_differ() {
    let mut tab = SymbolTable::new();
    let c = tab.intern("x");
    let v = tab.intern("?x");
    assert_ne!(c, v);
    assert_ne!(c.key(), v.key());
    assert_eq!(c.key(), tab.intern("x").key());
}

#[test]
fn a_name_is_interned_afresh_once_its_symbols_are_gone() {
    let mut tab = SymbolTable::new();
    let first = tab.intern("gone");
    let text = first.as_str().to_string();
    drop(first);
    let second = tab.intern("gone");
    assert_eq!(second.as_str(), text);
    assert_eq!(second, tab.intern("gone"));
}

#[test]
fn non_ascii_names_are_constants() {
    let mut tab = SymbolTable::new();
    let s = tab.intern("\u{e9}t\u{e9}");
    assert_eq!(s.is_var(), false);
    assert_eq!(s.as_str(), "\u{e9}t\u{e9}");
}
