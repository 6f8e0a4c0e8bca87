use chronos::symbol_table::{ContractInfo, FunctionSignature, Scope, ScopeType, Symbol, SymbolKind, SymbolTable};
use chronos::types::ChronosType;

fn var(name: &str, ty: ChronosType) -> Symbol {
    Symbol {
        name: name.to_string(),
        symbol_type: ty,
        kind: SymbolKind::Variable,
        mutable: false,
        initialized: true,
        used: false,
        line: 1,
        column: 1,
    }
}

#[test]
fn new_table_has_only_global_scope() {
    let t = SymbolTable::new();
    assert_eq!(t.depth(), 1);
    assert!(matches!(t.current_scope_type(), ScopeType::Global));
    assert!(!t.is_inside_loop());
    assert!(t.enclosing_function().is_none());
}

#[test]
fn define_then_lookup_finds_symbol() {
    let mut t = SymbolTable::new();
    assert!(t.define(var("x", ChronosType::Int32)).is_none());
    let found = t.lookup("x").unwrap();
    assert_eq!(found.name, "x");
    assert!(matches!(found.symbol_type, ChronosType::Int32));
    assert!(t.lookup("y").is_none());
}

#[test]
fn redefinition_replaces_and_returns_previous() {
    let mut t = SymbolTable::new();
    t.define(var("x", ChronosType::Int32));
    let prev = t.define(var("x", ChronosType::Bool)).unwrap();
    assert!(matches!(prev.symbol_type, ChronosType::Int32));
    assert!(matches!(t.lookup("x").unwrap().symbol_type, ChronosType::Bool));
}

#[test]
fn inner_scope_shadows_and_pop_restores() {
    let mut t = SymbolTable::new();
    t.define(var("x", ChronosType::Int32));
    t.push_scope(ScopeType::Block);
    t.define(var("x", ChronosType::Bool));
    assert!(matches!(t.lookup("x").unwrap().symbol_type, ChronosType::Bool));
    assert!(t.lookup_current_scope("x").is_some());
    let popped = t.pop_scope().unwrap();
    assert!(matches!(popped.scope_type, ScopeType::Block));
    assert!(matches!(t.lookup("x").unwrap().symbol_type, ChronosType::Int32));
}

#[test]
fn global_scope_is_never_popped() {
    let mut t = SymbolTable::new();
    assert!(t.pop_scope().is_none());
    assert_eq!(t.depth(), 1);
}

#[test]
fn lookup_current_scope_ignores_outer_scopes() {
    let mut t = SymbolTable::new();
    t.define(var("x", ChronosType::Int32));
    t.push_scope(ScopeType::Block);
    assert!(t.lookup_current_scope("x").is_none());
    assert!(t.lookup("x").is_some());
}

#[test]
fn enclosing_function_and_contract() {
    let mut t = SymbolTable::new();
    t.push_scope(ScopeType::Contract("Main".to_string()));
    t.push_scope(ScopeType::Function("main".to_string()));
    t.push_scope(ScopeType::Loop);
    assert_eq!(t.enclosing_function(), Some("main"));
    assert_eq!(t.enclosing_contract(), Some("Main"));
    assert!(t.is_inside_loop());
    assert_eq!(t.depth(), 4);
}

#[test]
fn mark_used_and_unused_symbols() {
    let mut t = SymbolTable::new();
    t.define(var("a", ChronosType::Int32));
    t.define(var("b", ChronosType::Int32));
    t.define(var("_c", ChronosType::Int32));
    t.mark_used("a");
    let unused: Vec<&str> = t.find_unused_symbols().iter().map(|s| s.name.as_str()).collect();
    assert_eq!(unused, vec!["b"]);
    assert!(t.lookup("a").unwrap().used);
}

#[test]
fn contracts_and_functions_are_registered_by_name() {
    let mut t = SymbolTable::new();
    t.register_contract(ContractInfo {
        name: "Main".to_string(),
        traits: vec!["EntryPoint".to_string()],
        fields: Vec::new(),
        methods: Vec::new(),
    });
    assert!(t.has_contract("Main"));
    assert!(!t.has_contract("Other"));
    assert_eq!(t.get_contract("Main").unwrap().traits, vec!["EntryPoint".to_string()]);
    t.register_function(FunctionSignature {
        name: "helper".to_string(),
        params: vec![("n".to_string(), ChronosType::Int32)],
        return_type: ChronosType::Void,
        annotations: Vec::new(),
    });
    assert_eq!(t.functions.len(), 1);
    assert_eq!(t.functions[0].params.len(), 1);
}

#[test]
fn scope_define_and_lookup_mut() {
    let mut s = Scope::new(ScopeType::Block);
    s.define(var("x", ChronosType::Int32));
    if let Some(sym) = s.lookup_mut("x") {
        sym.mutable = true;
    }
    assert!(s.lookup("x").unwrap().mutable);
    assert!(s.lookup("y").is_none());
}

#[test]
fn depth_counts_the_scopes_still_open() {
    let mut t = SymbolTable::new();
    t.push_scope(ScopeType::Block);
    t.push_scope(ScopeType::Loop);
    assert_eq!(t.depth(), 3);
    assert!(matches!(t.current_scope_type(), ScopeType::Loop));
    assert!(t.pop_scope().is_some());
    assert!(t.pop_scope().is_some());
    assert!(t.pop_scope().is_none());
    assert_eq!(t.depth(), 1);
    assert!(matches!(t.current_scope_type(), ScopeType::Global));
}
