use chronos::types::ChronosType;

#[test]
fn type_classes() {
    assert!(ChronosType::Int32.is_integer());
    assert!(ChronosType::Int32.is_numeric());
    assert!(ChronosType::Float64.is_float());
    assert!(!ChronosType::Float64.is_integer());
    assert!(ChronosType::Bool.is_primitive());
    assert!(!ChronosType::Contract("Main".to_string()).is_primitive());
}

#[test]
fn names_give_builtin_types() {
    assert!(matches!(ChronosType::from_name("UInt16"), ChronosType::UInt16));
    assert!(matches!(ChronosType::from_name("String"), ChronosType::StringType));
    assert!(matches!(ChronosType::from_name("Self"), ChronosType::SelfType));
    match ChronosType::from_name("Widget") {
        ChronosType::Unresolved(n) => assert_eq!(n, "Widget"),
        other => panic!("expected an unresolved type, got {:?}", other),
    }
}

#[test]
fn assignability() {
    assert!(ChronosType::Int32.is_assignable_from(&ChronosType::Int32));
    assert!(!ChronosType::Int32.is_assignable_from(&ChronosType::Int64));
    assert!(ChronosType::Int32.is_assignable_from(&ChronosType::Error));
    assert!(ChronosType::Unresolved("T".to_string()).is_assignable_from(&ChronosType::Bool));
    let shared = ChronosType::Reference { mutable: false, inner: Box::new(ChronosType::Int32) };
    let unique = ChronosType::Reference { mutable: true, inner: Box::new(ChronosType::Int32) };
    assert!(shared.is_assignable_from(&unique));
    assert!(!unique.is_assignable_from(&shared));
    assert!(shared.is_assignable_from(&shared));
}

#[test]
fn type_texts() {
    let t = ChronosType::Result {
        ok_type: Box::new(ChronosType::Int32),
        err_type: Box::new(ChronosType::StringType),
    };
    assert_eq!(t.to_text(), "Result<Int32, String>");
    let g = ChronosType::Generic { base: "Vector".to_string(), type_args: vec![ChronosType::Bool] };
    assert_eq!(g.to_text(), "Vector<Bool>");
    let r = ChronosType::Reference { mutable: true, inner: Box::new(ChronosType::Char) };
    assert_eq!(r.to_text(), "&mut Char");
    let c = ChronosType::Closure { params: vec![ChronosType::Int8, ChronosType::Int16], return_type: Box::new(ChronosType::Void) };
    assert_eq!(c.to_text(), "Closure<(Int8, Int16) -> Void>");
}

#[test]
fn clone_is_structurally_equal() {
    let t = ChronosType::Tuple { elements: vec![ChronosType::Int8, ChronosType::Unresolved("X".to_string())] };
    let c = t.clone();
    assert!(t.equals(&c));
    assert_eq!(c.to_text(), "Tuple<Int8, X>");
}
