use flcd::symbol_table::SymbolTable;

fn before_each() -> SymbolTable {
    let st = SymbolTable::new(16);
    st
}

#[test]
fn test_id() {
    let mut st = before_each();
    st.add_id("a".to_owned());

    assert!(st.find_id("a").is_some());
    let pos = st.find_id("a").unwrap();
    assert_eq!(st.get_id_by_position(&pos).unwrap(), "a");
}

#[test]
fn test_int() {
    let mut st = before_each();
    st.add_string_const("a".to_owned());

    assert!(st.find_string("a").is_some());
    let pos = st.find_string("a").unwrap();
    assert_eq!(st.get_string_by_position(&pos).unwrap(), "a");
}

#[test]
fn test_string() {
    let mut st = before_each();
    st.add_int_const(1);

    assert!(st.find_int(&1).is_some());
    let pos = st.find_int(&1).unwrap();
    assert_eq!(st.get_int_by_position(&pos).unwrap().to_owned(), 1);
}

#[test]
fn add_id_is_idempotent() {
    let mut st = SymbolTable::new(10);
    let p1 = st.add_id("x".to_owned());
    let p2 = st.add_id("x".to_owned());
    assert_eq!(p1, p2);
    assert_eq!(st.find_id("x"), Some(p1));
}

#[test]
fn sub_tables_are_independent() {
    let mut st = SymbolTable::new(10);
    st.add_string_const("a".to_owned());
    assert!(st.find_id("a").is_none());
    assert!(st.find_int(&0).is_none());
    assert!(st.find_string("a").is_some());

    st.add_id("b".to_owned());
    assert!(st.find_string("b").is_none());
}

#[test]
fn positions_are_stable_across_later_adds() {
    let mut st = SymbolTable::new(4);
    let px = st.add_id("x".to_owned());
    st.add_id("y".to_owned());
    st.add_id("z".to_owned());
    st.add_id("w".to_owned());
    assert_eq!(st.find_id("x"), Some(px));
    assert_eq!(st.get_id_by_position(&px).unwrap(), "x");
}
