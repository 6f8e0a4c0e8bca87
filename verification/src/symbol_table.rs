use vstd::prelude::*;
use crate::types::ChronosType;
use crate::keyed::{Keyed, keyed_get, find_keyed, get_keyed, insert_keyed, find_index, lemma_find_keyed_range, keys_unique};
use vstd::string::StrSliceExecFns;

verus! {

broadcast use vstd::std_specs::vec::group_vec_axioms;

/// A named entity known to the analyzer.
#[derive(Debug, Clone)]
pub struct Symbol {
    pub name: String,
    pub symbol_type: ChronosType,
    pub kind: SymbolKind,
    pub mutable: bool,
    pub initialized: bool,
    pub used: bool,
    pub line: usize,
    pub column: usize,
}

#[derive(Debug, Clone, Copy, PartialEq, Eq, Structural)]
pub enum SymbolKind {
    Variable,
    Parameter,
    Function,
    Method,
    Field,
    Contract,
    Enumeration,
}

/// Parameter types, return type and annotation names of a function.
#[derive(Debug, Clone)]
pub struct FunctionSignature {
    pub name: String,
    pub params: Vec<(String, ChronosType)>,
    pub return_type: ChronosType,
    pub annotations: Vec<String>,
}

/// What the analyzer records of a contract declaration.
#[derive(Debug, Clone)]
pub struct ContractInfo {
    pub name: String,
    pub traits: Vec<String>,
    pub fields: Vec<(String, ChronosType)>,
    pub methods: Vec<FunctionSignature>,
}

/// The kind of region a scope belongs to.
#[derive(Debug, Clone)]
pub enum ScopeType {
    Global,
    Contract(String),
    Function(String),
    Block,
    Loop,
}

/// One level of the scope stack: the symbols defined in it, at most one per
/// name (a later definition of a name replaces the earlier one).
#[derive(Debug, Clone)]
pub struct Scope {
    pub symbols: Vec<Symbol>,
    pub scope_type: ScopeType,
}

impl Keyed for Symbol {
    open spec fn key(&self) -> Seq<char> {
        self.name@
    }

    fn key_str(&self) -> (r: &str) {
        self.name.as_str()
    }
}

impl Keyed for ContractInfo {
    open spec fn key(&self) -> Seq<char> {
        self.name@
    }

    fn key_str(&self) -> (r: &str) {
        self.name.as_str()
    }
}

impl Keyed for FunctionSignature {
    open spec fn key(&self) -> Seq<char> {
        self.name@
    }

    fn key_str(&self) -> (r: &str) {
        self.name.as_str()
    }
}

impl Scope {
    pub fn new(scope_type: ScopeType) -> (s: Self)
        ensures
            s.symbols@.len() == 0,
            s.scope_type == scope_type,
    {
        Scope { symbols: Vec::new(), scope_type }
    }

    /// Defines `symbol` in this scope. A symbol of the same name is replaced
    /// and handed back.
    pub fn define(&mut self, symbol: Symbol) -> (prev: Option<Symbol>)
        ensures
            prev == keyed_get(old(self).symbols@, symbol.name@),
            keyed_get(final(self).symbols@, symbol.name@) == Some(symbol),
            forall|k: Seq<char>| k != symbol.name@ ==>
                #[trigger] keyed_get(final(self).symbols@, k) == keyed_get(old(self).symbols@, k),
            final(self).scope_type == old(self).scope_type,
            final(self).symbols@.len() == old(self).symbols@.len() + if prev is None { 1int } else { 0int },
            keys_unique(old(self).symbols@) ==> keys_unique(final(self).symbols@),
    {
        insert_keyed(&mut self.symbols, symbol)
    }

    /// The symbol of this scope named `name`.
    pub fn lookup(&self, name: &str) -> (r: Option<&Symbol>)
        ensures
            r matches Some(s) ==> keyed_get(self.symbols@, name@) == Some(*s),
            r is None ==> keyed_get(self.symbols@, name@) is None,
    {
        get_keyed(&self.symbols, name)
    }

    /// Mutable access to the symbol of this scope named `name`; whatever is
    /// written through it lands at that symbol's place.
    pub fn lookup_mut(&mut self, name: &str) -> (r: Option<&mut Symbol>)
        ensures
            match r {
                Some(s) => {
                    &&& keyed_get(old(self).symbols@, name@) == Some(*s)
                    &&& final(self).symbols@ == old(self).symbols@.update(
                        find_keyed(old(self).symbols@, name@)->0,
                        *final(s),
                    )
                    &&& final(self).scope_type == old(self).scope_type
                },
                None => {
                    &&& keyed_get(old(self).symbols@, name@) is None
                    &&& *final(self) == *old(self)
                },
            },
    {
        proof {
            lemma_find_keyed_range(self.symbols@, name@);
        }
        match find_index(&self.symbols, name) {
            Some(i) => Some(&mut self.symbols[i]),
            None => None,
        }
    }
}


/// The symbol named `name` in the innermost scope that defines it.
pub open spec fn lookup_in_scopes(scopes: Seq<Scope>, name: Seq<char>) -> Option<Symbol>
    decreases scopes.len(),
{
    if scopes.len() == 0 {
        None
    } else {
        match keyed_get(scopes.last().symbols@, name) {
            Some(s) => Some(s),
            None => lookup_in_scopes(scopes.drop_last(), name),
        }
    }
}

/// Index of the innermost scope that defines `name`.
pub open spec fn scope_defining(scopes: Seq<Scope>, name: Seq<char>) -> Option<int>
    decreases scopes.len(),
{
    if scopes.len() == 0 {
        None
    } else if keyed_get(scopes.last().symbols@, name) is Some {
        Some(scopes.len() - 1)
    } else {
        scope_defining(scopes.drop_last(), name)
    }
}

/// Name of the innermost function scope.
pub open spec fn innermost_function(scopes: Seq<Scope>) -> Option<Seq<char>>
    decreases scopes.len(),
{
    if scopes.len() == 0 {
        None
    } else {
        match scopes.last().scope_type {
            ScopeType::Function(n) => Some(n@),
            _ => innermost_function(scopes.drop_last()),
        }
    }
}

/// Name of the innermost contract scope.
pub open spec fn innermost_contract(scopes: Seq<Scope>) -> Option<Seq<char>>
    decreases scopes.len(),
{
    if scopes.len() == 0 {
        None
    } else {
        match scopes.last().scope_type {
            ScopeType::Contract(n) => Some(n@),
            _ => innermost_contract(scopes.drop_last()),
        }
    }
}

/// The symbol with its `used` flag set.
pub open spec fn marked_used(s: Symbol) -> Symbol {
    Symbol { used: true, ..s }
}

/// Whether a symbol is reported as unused: a variable, never read, whose
/// name does not start with `_`.
pub open spec fn reported_unused(s: Symbol) -> bool {
    &&& !s.used
    &&& s.kind == SymbolKind::Variable
    &&& !(s.name@.len() > 0 && s.name@[0] == '_')
}

/// The symbols of `syms` that are reported unused, in order.
pub open spec fn unused_of(syms: Seq<Symbol>) -> Seq<Symbol>
    decreases syms.len(),
{
    if syms.len() == 0 {
        Seq::empty()
    } else if reported_unused(syms.last()) {
        unused_of(syms.drop_last()).push(syms.last())
    } else {
        unused_of(syms.drop_last())
    }
}

/// The symbols reported unused in each scope, outermost scope first.
pub open spec fn unused_in_scopes(scopes: Seq<Scope>) -> Seq<Symbol>
    decreases scopes.len(),
{
    if scopes.len() == 0 {
        Seq::empty()
    } else {
        unused_in_scopes(scopes.drop_last()) + unused_of(scopes.last().symbols@)
    }
}

/// The scope stack and the registries of contracts and free functions.
///
/// Names are looked up by key (`keyed_get`), which finds the first entry of
/// a name. `define`, `register_contract` and `register_function` replace an
/// entry of the same name rather than add a second one, and they keep
/// `keys_unique` (no name twice) wherever it held. It is not part of `wf`:
/// no contract here depends on it, since every lookup is stated by the
/// first entry of a name.
#[derive(Debug)]
pub struct SymbolTable {
    scopes: Vec<Scope>,
    pub contracts: Vec<ContractInfo>,
    pub functions: Vec<FunctionSignature>,
}

impl SymbolTable {
    /// The stack of scopes, outermost first.
    pub closed spec fn stack(&self) -> Seq<Scope> {
        self.scopes@
    }

    /// The registered contracts, in registration order.
    pub closed spec fn contract_list(&self) -> Seq<ContractInfo> {
        self.contracts@
    }

    /// The registered free functions, in registration order.
    pub closed spec fn function_list(&self) -> Seq<FunctionSignature> {
        self.functions@
    }

    /// The global scope is always at the bottom of the stack.
    pub open spec fn wf(&self) -> bool {
        self.stack().len() >= 1
    }

    pub fn new() -> (t: Self)
        ensures
            t.wf(),
            t.stack().len() == 1,
            t.stack()[0].scope_type is Global,
            t.stack()[0].symbols@.len() == 0,
            t.contract_list().len() == 0,
            t.function_list().len() == 0,
    {
        let global = Scope::new(ScopeType::Global);
        let mut scopes: Vec<Scope> = Vec::new();
        scopes.push(global);
        SymbolTable { scopes, contracts: Vec::new(), functions: Vec::new() }
    }

    /// Opens a new innermost scope.
    pub fn push_scope(&mut self, scope_type: ScopeType)
        ensures
            final(self).stack().len() == old(self).stack().len() + 1,
            final(self).stack().drop_last() == old(self).stack(),
            final(self).stack().last().scope_type == scope_type,
            final(self).stack().last().symbols@.len() == 0,
            final(self).contract_list() == old(self).contract_list(),
            final(self).function_list() == old(self).function_list(),
    {
        let ghost before = self.scopes@;
        self.scopes.push(Scope::new(scope_type));
        assert(self.scopes@.drop_last() =~= before);
    }

    /// Closes the innermost scope and hands it back; the global scope is
    /// never closed.
    pub fn pop_scope(&mut self) -> (r: Option<Scope>)
        ensures
            old(self).stack().len() > 1 ==> {
                &&& r == Some(old(self).stack().last())
                &&& final(self).stack() == old(self).stack().drop_last()
            },
            old(self).stack().len() <= 1 ==> r is None && final(self).stack() == old(self).stack(),
            final(self).contract_list() == old(self).contract_list(),
            final(self).function_list() == old(self).function_list(),
    {
        if self.scopes.len() > 1 {
            self.scopes.pop()
        } else {
            None
        }
    }

    /// Defines `symbol` in the innermost scope; a symbol of the same name in
    /// that scope is replaced and handed back.
    pub fn define(&mut self, symbol: Symbol) -> (prev: Option<Symbol>)
        requires
            old(self).wf(),
        ensures
            final(self).wf(),
            final(self).stack().len() == old(self).stack().len(),
            final(self).stack().drop_last() == old(self).stack().drop_last(),
            prev == keyed_get(old(self).stack().last().symbols@, symbol.name@),
            keyed_get(final(self).stack().last().symbols@, symbol.name@) == Some(symbol),
            forall|k: Seq<char>| k != symbol.name@ ==>
                #[trigger] keyed_get(final(self).stack().last().symbols@, k)
                    == keyed_get(old(self).stack().last().symbols@, k),
            final(self).stack().last().scope_type == old(self).stack().last().scope_type,
            final(self).contract_list() == old(self).contract_list(),
            final(self).function_list() == old(self).function_list(),
            final(self).stack().last().symbols@.len() == old(self).stack().last().symbols@.len() + if prev is None {
                1int
            } else {
                0int
            },
            keys_unique(old(self).stack().last().symbols@) ==> keys_unique(final(self).stack().last().symbols@),
    {
        let n = self.scopes.len();
        let ghost before = self.scopes@;
        let r = self.scopes[n - 1].define(symbol);
        assert(self.scopes@.drop_last() =~= before.drop_last());
        r
    }

    /// The symbol named `name` in the innermost scope that defines it.
    pub fn lookup(&self, name: &str) -> (r: Option<&Symbol>)
        ensures
            r matches Some(s) ==> lookup_in_scopes(self.stack(), name@) == Some(*s),
            r is None ==> lookup_in_scopes(self.stack(), name@) is None,
    {
        let mut i = self.scopes.len();
        assert(self.scopes@.take(i as int) =~= self.scopes@);
        while i > 0
            invariant
                i <= self.scopes.len(),
                lookup_in_scopes(self.scopes@, name@) == lookup_in_scopes(self.scopes@.take(i as int), name@),
            decreases i,
        {
            assert(self.scopes@.take(i as int).drop_last() =~= self.scopes@.take(i - 1));
            if let Some(sym) = self.scopes[i - 1].lookup(name) {
                return Some(sym);
            }
            i -= 1;
        }
        None
    }

    /// The symbol named `name` in the innermost scope only.
    pub fn lookup_current_scope(&self, name: &str) -> (r: Option<&Symbol>)
        ensures
            self.stack().len() == 0 ==> r is None,
            self.stack().len() > 0 ==> {
                &&& r matches Some(s) ==> keyed_get(self.stack().last().symbols@, name@) == Some(*s)
                &&& r is None ==> keyed_get(self.stack().last().symbols@, name@) is None
            },
    {
        if self.scopes.len() == 0 {
            return None;
        }
        self.scopes[self.scopes.len() - 1].lookup(name)
    }

    /// Marks the symbol named `name` in the innermost scope that defines it
    /// as used. Nothing changes when no scope defines it.
    pub fn mark_used(&mut self, name: &str)
        ensures
            final(self).stack().len() == old(self).stack().len(),
            final(self).contract_list() == old(self).contract_list(),
            final(self).function_list() == old(self).function_list(),
            scope_defining(old(self).stack(), name@) is None ==> final(self).stack() == old(self).stack(),
            scope_defining(old(self).stack(), name@) matches Some(j) ==> {
                &&& forall|i: int| 0 <= i < old(self).stack().len() && i != j
                    ==> #[trigger] final(self).stack()[i] == old(self).stack()[i]
                &&& final(self).stack()[j].scope_type == old(self).stack()[j].scope_type
                &&& final(self).stack()[j].symbols@ == old(self).stack()[j].symbols@.update(
                    find_keyed(old(self).stack()[j].symbols@, name@)->0,
                    marked_used(keyed_get(old(self).stack()[j].symbols@, name@)->0),
                )
            },
    {
        let ghost old_scopes = self.scopes@;
        let mut i = self.scopes.len();
        assert(self.scopes@.take(i as int) =~= self.scopes@);
        while i > 0
            invariant
                i <= self.scopes.len(),
                self.scopes@ == old_scopes,
                old_scopes == old(self).stack(),
                scope_defining(old_scopes, name@) == scope_defining(old_scopes.take(i as int), name@),
                self.contracts == old(self).contracts,
                self.functions == old(self).functions,
            decreases i,
        {
            assert(old_scopes.take(i as int).drop_last() =~= old_scopes.take(i - 1));
            let ghost before = self.scopes@;
            if self.scopes[i - 1].lookup(name).is_some() {
                mark_in_scope(&mut self.scopes[i - 1], name);
                proof {
                    assert forall|k: int| 0 <= k < before.len() && k != i - 1
                        implies #[trigger] self.scopes@[k] == before[k] by {}
                }
                return;
            }
            i -= 1;
        }
    }

    /// Kind of the innermost scope.
    pub fn current_scope_type(&self) -> (r: &ScopeType)
        requires
            self.wf(),
        ensures
            *r == self.stack().last().scope_type,
    {
        &self.scopes[self.scopes.len() - 1].scope_type
    }

    /// Name of the innermost enclosing function.
    pub fn enclosing_function(&self) -> (r: Option<&str>)
        ensures
            r matches Some(n) ==> innermost_function(self.stack()) == Some(n@),
            r is None ==> innermost_function(self.stack()) is None,
    {
        let mut i = self.scopes.len();
        assert(self.scopes@.take(i as int) =~= self.scopes@);
        while i > 0
            invariant
                i <= self.scopes.len(),
                innermost_function(self.scopes@) == innermost_function(self.scopes@.take(i as int)),
            decreases i,
        {
            assert(self.scopes@.take(i as int).drop_last() =~= self.scopes@.take(i - 1));
            if let ScopeType::Function(name) = &self.scopes[i - 1].scope_type {
                return Some(name.as_str());
            }
            i -= 1;
        }
        None
    }

    /// Name of the innermost enclosing contract.
    pub fn enclosing_contract(&self) -> (r: Option<&str>)
        ensures
            r matches Some(n) ==> innermost_contract(self.stack()) == Some(n@),
            r is None ==> innermost_contract(self.stack()) is None,
    {
        let mut i = self.scopes.len();
        assert(self.scopes@.take(i as int) =~= self.scopes@);
        while i > 0
            invariant
                i <= self.scopes.len(),
                innermost_contract(self.scopes@) == innermost_contract(self.scopes@.take(i as int)),
            decreases i,
        {
            assert(self.scopes@.take(i as int).drop_last() =~= self.scopes@.take(i - 1));
            if let ScopeType::Contract(name) = &self.scopes[i - 1].scope_type {
                return Some(name.as_str());
            }
            i -= 1;
        }
        None
    }

    /// Records a contract under its name, replacing an earlier one.
    pub fn register_contract(&mut self, info: ContractInfo)
        ensures
            keyed_get(final(self).contract_list(), info.name@) == Some(info),
            forall|k: Seq<char>| k != info.name@ ==>
                #[trigger] keyed_get(final(self).contract_list(), k) == keyed_get(old(self).contract_list(), k),
            final(self).stack() == old(self).stack(),
            final(self).function_list() == old(self).function_list(),
            keys_unique(old(self).contract_list()) ==> keys_unique(final(self).contract_list()),
    {
        insert_keyed(&mut self.contracts, info);
    }

    /// The contract registered under `name`.
    pub fn get_contract(&self, name: &str) -> (r: Option<&ContractInfo>)
        ensures
            r matches Some(c) ==> keyed_get(self.contract_list(), name@) == Some(*c),
            r is None ==> keyed_get(self.contract_list(), name@) is None,
    {
        get_keyed(&self.contracts, name)
    }

    /// Is a contract registered under `name`?
    pub fn has_contract(&self, name: &str) -> (r: bool)
        ensures
            r == (keyed_get(self.contract_list(), name@) is Some),
    {
        get_keyed(&self.contracts, name).is_some()
    }

    /// Records a free function under its name, replacing an earlier one.
    pub fn register_function(&mut self, sig: FunctionSignature)
        ensures
            keyed_get(final(self).function_list(), sig.name@) == Some(sig),
            forall|k: Seq<char>| k != sig.name@ ==>
                #[trigger] keyed_get(final(self).function_list(), k) == keyed_get(old(self).function_list(), k),
            final(self).stack() == old(self).stack(),
            final(self).contract_list() == old(self).contract_list(),
            keys_unique(old(self).function_list()) ==> keys_unique(final(self).function_list()),
    {
        insert_keyed(&mut self.functions, sig);
    }

    /// The symbols of all scopes, outermost scope first and in the order
    /// they were defined within a scope, that are variables never marked
    /// used and whose names do not start with `_`.
    pub fn find_unused_symbols(&self) -> (r: Vec<&Symbol>)
        ensures
            r@.map_values(|s: &Symbol| *s) == unused_in_scopes(self.stack()),
            forall|i: int| 0 <= i < r@.len() ==> reported_unused(*#[trigger] r@[i]),
            forall|i: int, j: int| 0 <= i < self.stack().len() && 0 <= j < self.stack()[i].symbols@.len()
                && reported_unused(#[trigger] self.stack()[i].symbols@[j])
                ==> r@.contains(&self.stack()[i].symbols@[j]),
    {
        let mut unused: Vec<&Symbol> = Vec::new();
        let mut i: usize = 0;
        proof {
            assert(self.scopes@.take(0) =~= Seq::<Scope>::empty());
            assert(unused@.map_values(|s: &Symbol| *s) =~= Seq::<Symbol>::empty());
        }
        while i < self.scopes.len()
            invariant
                i <= self.scopes.len(),
                unused@.map_values(|s: &Symbol| *s) == unused_in_scopes(self.scopes@.take(i as int)),
                forall|k: int| 0 <= k < unused@.len() ==> reported_unused(*#[trigger] unused@[k]),
                forall|a: int, b: int| 0 <= a < i && 0 <= b < self.scopes@[a].symbols@.len()
                    && reported_unused(#[trigger] self.scopes@[a].symbols@[b])
                    ==> unused@.contains(&self.scopes@[a].symbols@[b]),
            decreases self.scopes.len() - i,
        {
            let syms = &self.scopes[i].symbols;
            let ghost base = unused@.map_values(|s: &Symbol| *s);
            let mut j: usize = 0;
            proof {
                assert(syms@.take(0) =~= Seq::<Symbol>::empty());
                assert(base + unused_of(syms@.take(0)) =~= base);
            }
            while j < syms.len()
                invariant
                    i < self.scopes.len(),
                    syms == &self.scopes@[i as int].symbols,
                    j <= syms.len(),
                    base == unused_in_scopes(self.scopes@.take(i as int)),
                    unused@.map_values(|s: &Symbol| *s) == base + unused_of(syms@.take(j as int)),
                    forall|k: int| 0 <= k < unused@.len() ==> reported_unused(*#[trigger] unused@[k]),
                    forall|a: int, b: int| 0 <= a < i && 0 <= b < self.scopes@[a].symbols@.len()
                        && reported_unused(#[trigger] self.scopes@[a].symbols@[b])
                        ==> unused@.contains(&self.scopes@[a].symbols@[b]),
                    forall|b: int| 0 <= b < j && reported_unused(#[trigger] syms@[b])
                        ==> unused@.contains(&syms@[b]),
                decreases syms.len() - j,
            {
                let sym = &syms[j];
                let starts_underscore = !sym.name.as_str().is_empty() && first_char_is_underscore(sym.name.as_str());
                let ghost before_v = unused@.map_values(|s: &Symbol| *s);
                proof {
                    assert(syms@.take(j + 1).drop_last() =~= syms@.take(j as int));
                    assert(syms@.take(j + 1).last() == syms@[j as int]);
                }
                if !sym.used && sym.kind == SymbolKind::Variable && !starts_underscore {
                    let ghost before = unused@;
                    unused.push(sym);
                    proof {
                        assert(unused@[unused@.len() - 1] == sym);
                        assert forall|x: &Symbol| before.contains(x) implies unused@.contains(x) by {
                            let k = choose|k: int| 0 <= k < before.len() && before[k] == x;
                            assert(unused@[k] == x);
                        }
                        assert(unused@.map_values(|s: &Symbol| *s) =~= before_v.push(*sym));
                        assert(base + unused_of(syms@.take(j + 1)) =~= (base + unused_of(syms@.take(j as int))).push(*sym));
                    }
                }
                j += 1;
            }
            proof {
                assert(syms@.take(syms@.len() as int) =~= syms@);
                assert(self.scopes@.take(i + 1).drop_last() =~= self.scopes@.take(i as int));
                assert(self.scopes@.take(i + 1).last() == self.scopes@[i as int]);
            }
            i += 1;
        }
        proof {
            assert(self.scopes@.take(self.scopes@.len() as int) =~= self.scopes@);
        }
        unused
    }

    /// Number of open scopes, the global one included.
    pub fn depth(&self) -> (n: usize)
        ensures
            n == self.stack().len(),
    {
        self.scopes.len()
    }

    /// Is any open scope a loop body?
    pub fn is_inside_loop(&self) -> (b: bool)
        ensures
            b == exists|i: int| 0 <= i < self.stack().len() && #[trigger] self.stack()[i].scope_type is Loop,
    {
        let mut i = self.scopes.len();
        while i > 0
            invariant
                i <= self.scopes.len(),
                forall|k: int| i <= k < self.scopes@.len() ==> !(#[trigger] self.scopes@[k].scope_type is Loop),
            decreases i,
        {
            if matches!(self.scopes[i - 1].scope_type, ScopeType::Loop) {
                return true;
            }
            i -= 1;
        }
        false
    }
}

/// Sets the `used` flag of the symbol of `scope` named `name`.
fn mark_in_scope(scope: &mut Scope, name: &str)
    requires
        keyed_get(old(scope).symbols@, name@) is Some,
    ensures
        final(scope).scope_type == old(scope).scope_type,
        final(scope).symbols@ == old(scope).symbols@.update(
            find_keyed(old(scope).symbols@, name@)->0,
            marked_used(keyed_get(old(scope).symbols@, name@)->0),
        ),
{
    proof {
        lemma_find_keyed_range(scope.symbols@, name@);
    }
    match find_index(&scope.symbols, name) {
        Some(i) => {
            let ghost before = scope.symbols@;
            scope.symbols[i].used = true;
            assert(scope.symbols@ =~= before.update(i as int, marked_used(before[i as int])));
        },
        None => {},
    }
}

/// Whether a non-empty string starts with `_`.
fn first_char_is_underscore(s: &str) -> (b: bool)
    requires
        s@.len() > 0,
    ensures
        b == (s@[0] == '_'),
{
    s.get_char(0) == '_'
}

} // verus!
