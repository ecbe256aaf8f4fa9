use lisp::value::{
    cons, display, is_list, is_pair, list_to_vec, slice_to_list, vec_to_list, Value, ValueError,
};

fn sym(s: &str) -> Value {
    Value::Symbol(s.to_string())
}

#[test]
fn round_trip_through_list() {
    let items = vec![sym("a"), Value::Number("42".to_string()), Value::String("hi".to_string())];
    let list = slice_to_list(&items);
    let back = list_to_vec(&list).unwrap();
    assert_eq!(back, items);
}

#[test]
fn round_trip_of_empty_list() {
    let items: Vec<Value> = Vec::new();
    let list = slice_to_list(&items);
    assert_eq!(list, Value::Nil);
    assert_eq!(list_to_vec(&list).unwrap(), items);
}

#[test]
fn vec_to_list_matches_slice_to_list() {
    let items = vec![sym("x"), sym("y")];
    assert_eq!(vec_to_list(&items), slice_to_list(&items));
}

#[test]
fn two_element_list_is_list() {
    let v = cons(sym("a"), cons(sym("b"), Value::Nil));
    assert!(is_list(&v));
    assert!(!is_pair(&v));
}

#[test]
fn dotted_pair_is_pair() {
    let v = cons(sym("a"), sym("b"));
    assert!(is_pair(&v));
    assert!(!is_list(&v));
}

#[test]
fn cons_onto_nil_is_list_not_pair() {
    let v = cons(sym("a"), Value::Nil);
    assert!(is_list(&v));
    assert!(!is_pair(&v));
}

#[test]
fn nil_is_list_but_no_pair() {
    assert!(is_list(&Value::Nil));
    assert!(!is_pair(&Value::Nil));
}

#[test]
fn dotted_chain_is_neither_list_nor_pair_at_top() {
    let v = cons(sym("a"), cons(sym("b"), sym("c")));
    assert!(!is_list(&v));
    assert!(!is_pair(&v));
}

#[test]
fn list_to_vec_rejects_dotted_value() {
    let v = cons(sym("a"), sym("b"));
    assert_eq!(list_to_vec(&v), Err(ValueError::NotAProperList));
    assert_eq!(list_to_vec(&sym("a")), Err(ValueError::NotAProperList));
}

#[test]
fn display_of_atoms() {
    assert_eq!(display(&Value::Nil), "nil");
    assert_eq!(display(&sym("foo")), "foo");
    assert_eq!(display(&Value::Number("3.5".to_string())), "3.5");
    assert_eq!(display(&Value::String("hi".to_string())), "\"hi\"");
}

#[test]
fn display_escapes_string_contents() {
    let v = Value::String("a\"b\\c\nd\te\rf".to_string());
    assert_eq!(display(&v), "\"a\\\"b\\\\c\\nd\\te\\rf\"");
}

#[test]
fn display_escapes_other_control_characters() {
    let v = Value::String("\u{7}\u{B}\u{9F}".to_string());
    assert_eq!(display(&v), "\"\\x07\\x0b\\x9f\"");
}

#[test]
fn display_of_proper_list() {
    let v = slice_to_list(&[sym("a"), sym("b"), sym("c")]);
    assert_eq!(display(&v), "(a b c)");
}

#[test]
fn display_of_nested_list() {
    let inner = slice_to_list(&[sym("b"), sym("c")]);
    let v = slice_to_list(&[sym("a"), inner]);
    assert_eq!(display(&v), "(a (b c))");
}

#[test]
fn display_of_dotted_pair() {
    let v = cons(sym("a"), sym("b"));
    assert_eq!(display(&v), "(a . b)");
}

#[test]
fn display_of_dotted_chain() {
    let v = cons(sym("a"), cons(sym("b"), sym("c")));
    assert_eq!(display(&v), "(a b . c)");
}

#[test]
fn car_cdr_read_the_slots() {
    let v = cons(sym("a"), sym("b"));
    match v {
        Value::Cons(c) => {
            assert_eq!(c.car(), sym("a"));
            assert_eq!(c.cdr(), sym("b"));
        }
        _ => panic!("cons did not build a Cons"),
    }
}

#[test]
fn set_car_and_set_cdr_replace_the_slots() {
    let v = cons(sym("a"), sym("b"));
    match v {
        Value::Cons(mut c) => {
            c.set_car(sym("x"));
            c.set_cdr(Value::Nil);
            assert_eq!(c.car(), sym("x"));
            assert_eq!(c.cdr(), Value::Nil);
        }
        _ => panic!("cons did not build a Cons"),
    }
}

#[test]
fn clone_is_structural() {
    let v = cons(sym("a"), cons(Value::String("s".to_string()), Value::Nil));
    assert_eq!(v.clone(), v);
}
