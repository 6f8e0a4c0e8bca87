use vstd::prelude::*;
use crate::text::str_eq;
use crate::text::owned;

verus! {

broadcast use vstd::std_specs::vec::group_vec_axioms;

/// The types of the CHRONOS language.
#[derive(Debug)]
pub enum ChronosType {
    Int8,
    Int16,
    Int32,
    Int64,
    UInt8,
    UInt16,
    UInt32,
    UInt64,
    Float32,
    Float64,
    Bool,
    Char,
    StringType,
    Void,
    /// `Vector<T>` and other parameterised types.
    Generic { base: String, type_args: Vec<ChronosType> },
    /// `Result<T, E>`
    Result { ok_type: Box<ChronosType>, err_type: Box<ChronosType> },
    /// `Optional<T>`
    Optional { inner: Box<ChronosType> },
    /// `&T` and `&mut T`
    Reference { mutable: bool, inner: Box<ChronosType> },
    /// `Tuple<A, B, C>`
    Tuple { elements: Vec<ChronosType> },
    /// `Closure<(A, B) -> R>`
    Closure { params: Vec<ChronosType>, return_type: Box<ChronosType> },
    /// A user-defined contract.
    Contract(String),
    /// A user-defined enumeration.
    Enum(String),
    /// `Self` inside a contract.
    SelfType,
    /// A type name that has not been resolved.
    Unresolved(String),
    /// Placeholder for a type whose error was already reported.
    Error,
}

impl ChronosType {
    pub open spec fn spec_is_integer(self) -> bool {
        ||| self is Int8
        ||| self is Int16
        ||| self is Int32
        ||| self is Int64
        ||| self is UInt8
        ||| self is UInt16
        ||| self is UInt32
        ||| self is UInt64
    }

    pub open spec fn spec_is_float(self) -> bool {
        self is Float32 || self is Float64
    }

    pub open spec fn spec_is_numeric(self) -> bool {
        self.spec_is_integer() || self.spec_is_float()
    }

    pub open spec fn spec_is_primitive(self) -> bool {
        ||| self.spec_is_numeric()
        ||| self is Bool
        ||| self is Char
        ||| self is StringType
        ||| self is Void
    }

    /// Is this one of the built-in primitive types?
    pub fn is_primitive(&self) -> (b: bool)
        ensures
            b == self.spec_is_primitive(),
    {
        match self {
            ChronosType::Int8 | ChronosType::Int16 | ChronosType::Int32 | ChronosType::Int64
            | ChronosType::UInt8 | ChronosType::UInt16 | ChronosType::UInt32 | ChronosType::UInt64
            | ChronosType::Float32 | ChronosType::Float64 | ChronosType::Bool | ChronosType::Char
            | ChronosType::StringType | ChronosType::Void => true,
            _ => false,
        }
    }

    /// Is this an integer or floating-point type?
    pub fn is_numeric(&self) -> (b: bool)
        ensures
            b == self.spec_is_numeric(),
    {
        match self {
            ChronosType::Int8 | ChronosType::Int16 | ChronosType::Int32 | ChronosType::Int64
            | ChronosType::UInt8 | ChronosType::UInt16 | ChronosType::UInt32 | ChronosType::UInt64
            | ChronosType::Float32 | ChronosType::Float64 => true,
            _ => false,
        }
    }

    /// Is this a signed or unsigned integer type?
    pub fn is_integer(&self) -> (b: bool)
        ensures
            b == self.spec_is_integer(),
    {
        match self {
            ChronosType::Int8 | ChronosType::Int16 | ChronosType::Int32 | ChronosType::Int64
            | ChronosType::UInt8 | ChronosType::UInt16 | ChronosType::UInt32 | ChronosType::UInt64 => true,
            _ => false,
        }
    }

    /// Is this `Float32` or `Float64`?
    pub fn is_float(&self) -> (b: bool)
        ensures
            b == self.spec_is_float(),
    {
        match self {
            ChronosType::Float32 | ChronosType::Float64 => true,
            _ => false,
        }
    }
}

/// Structural equality of two types: same variant, equal names and flags,
/// and pairwise equal component types.
pub open spec fn same_type(a: ChronosType, b: ChronosType) -> bool
    decreases a,
{
    match (a, b) {
        (ChronosType::Generic { base: x, type_args: xs }, ChronosType::Generic { base: y, type_args: ys }) =>
            x@ == y@ && same_types(xs@, ys@),
        (ChronosType::Result { ok_type: x1, err_type: x2 }, ChronosType::Result { ok_type: y1, err_type: y2 }) =>
            same_type(*x1, *y1) && same_type(*x2, *y2),
        (ChronosType::Optional { inner: x }, ChronosType::Optional { inner: y }) => same_type(*x, *y),
        (ChronosType::Reference { mutable: m, inner: x }, ChronosType::Reference { mutable: n, inner: y }) =>
            m == n && same_type(*x, *y),
        (ChronosType::Tuple { elements: xs }, ChronosType::Tuple { elements: ys }) => same_types(xs@, ys@),
        (ChronosType::Closure { params: xs, return_type: x }, ChronosType::Closure { params: ys, return_type: y }) =>
            same_types(xs@, ys@) && same_type(*x, *y),
        (ChronosType::Contract(x), ChronosType::Contract(y)) => x@ == y@,
        (ChronosType::Enum(x), ChronosType::Enum(y)) => x@ == y@,
        (ChronosType::Unresolved(x), ChronosType::Unresolved(y)) => x@ == y@,
        (ChronosType::Int8, ChronosType::Int8) => true,
        (ChronosType::Int16, ChronosType::Int16) => true,
        (ChronosType::Int32, ChronosType::Int32) => true,
        (ChronosType::Int64, ChronosType::Int64) => true,
        (ChronosType::UInt8, ChronosType::UInt8) => true,
        (ChronosType::UInt16, ChronosType::UInt16) => true,
        (ChronosType::UInt32, ChronosType::UInt32) => true,
        (ChronosType::UInt64, ChronosType::UInt64) => true,
        (ChronosType::Float32, ChronosType::Float32) => true,
        (ChronosType::Float64, ChronosType::Float64) => true,
        (ChronosType::Bool, ChronosType::Bool) => true,
        (ChronosType::Char, ChronosType::Char) => true,
        (ChronosType::StringType, ChronosType::StringType) => true,
        (ChronosType::Void, ChronosType::Void) => true,
        (ChronosType::SelfType, ChronosType::SelfType) => true,
        (ChronosType::Error, ChronosType::Error) => true,
        _ => false,
    }
}

/// Pairwise structural equality of two sequences of types.
pub open spec fn same_types(xs: Seq<ChronosType>, ys: Seq<ChronosType>) -> bool
    decreases xs,
{
    if xs.len() != ys.len() {
        false
    } else if xs.len() == 0 {
        true
    } else {
        same_types(xs.drop_last(), ys.drop_last()) && same_type(xs.last(), ys.last())
    }
}

/// A copy of every type in a sequence of types.
fn duplicate_all(v: &Vec<ChronosType>) -> (r: Vec<ChronosType>)
    ensures
        same_types(r@, v@),
    decreases v, 0nat,
{
    let mut r: Vec<ChronosType> = Vec::new();
    let mut i: usize = 0;
    while i < v.len()
        invariant
            i <= v.len(),
            same_types(r@, v@.take(i as int)),
        decreases v.len() - i,
    {
        proof {
            assert(decreases_to!(v => v[i as int]));
        }
        let t = v[i].duplicate();
        let ghost prev = r@;
        r.push(t);
        proof {
            assert(r@.drop_last() =~= prev);
            assert(v@.take(i + 1).drop_last() =~= v@.take(i as int));
        }
        i += 1;
    }
    assert(v@.take(i as int) =~= v@);
    r
}

impl ChronosType {
    /// A structurally equal copy of the type.
    pub fn duplicate(&self) -> (r: ChronosType)
        ensures
            same_type(r, *self),
        decreases self, 1nat,
    {
        match self {
            ChronosType::Int8 => ChronosType::Int8,
            ChronosType::Int16 => ChronosType::Int16,
            ChronosType::Int32 => ChronosType::Int32,
            ChronosType::Int64 => ChronosType::Int64,
            ChronosType::UInt8 => ChronosType::UInt8,
            ChronosType::UInt16 => ChronosType::UInt16,
            ChronosType::UInt32 => ChronosType::UInt32,
            ChronosType::UInt64 => ChronosType::UInt64,
            ChronosType::Float32 => ChronosType::Float32,
            ChronosType::Float64 => ChronosType::Float64,
            ChronosType::Bool => ChronosType::Bool,
            ChronosType::Char => ChronosType::Char,
            ChronosType::StringType => ChronosType::StringType,
            ChronosType::Void => ChronosType::Void,
            ChronosType::SelfType => ChronosType::SelfType,
            ChronosType::Error => ChronosType::Error,
            ChronosType::Contract(n) => ChronosType::Contract(n.clone()),
            ChronosType::Enum(n) => ChronosType::Enum(n.clone()),
            ChronosType::Unresolved(n) => ChronosType::Unresolved(n.clone()),
            ChronosType::Generic { base, type_args } => {
                let b = base.clone();
                let args = duplicate_all(type_args);
                let r = ChronosType::Generic { base: b, type_args: args };
                r
            },
            ChronosType::Result { ok_type, err_type } => ChronosType::Result {
                ok_type: Box::new(ok_type.duplicate()),
                err_type: Box::new(err_type.duplicate()),
            },
            ChronosType::Optional { inner } => ChronosType::Optional { inner: Box::new(inner.duplicate()) },
            ChronosType::Reference { mutable, inner } => ChronosType::Reference {
                mutable: *mutable,
                inner: Box::new(inner.duplicate()),
            },
            ChronosType::Tuple { elements } => ChronosType::Tuple { elements: duplicate_all(elements) },
            ChronosType::Closure { params, return_type } => ChronosType::Closure {
                params: duplicate_all(params),
                return_type: Box::new(return_type.duplicate()),
            },
        }
    }
}

impl Clone for ChronosType {
    fn clone(&self) -> (r: Self)
        ensures
            same_type(r, *self),
    {
        self.duplicate()
    }
}


/// Whether every type in `xs` is structurally equal to the type at the same
/// position in `ys` (exec counterpart of `same_types`).
fn types_all_equal(xs: &Vec<ChronosType>, ys: &Vec<ChronosType>) -> (r: bool)
    ensures
        r == same_types(xs@, ys@),
    decreases xs, 0nat,
{
    if xs.len() != ys.len() {
        return false;
    }
    let mut i: usize = 0;
    while i < xs.len()
        invariant
            i <= xs.len(),
            xs.len() == ys.len(),
            same_types(xs@.take(i as int), ys@.take(i as int)),
        decreases xs.len() - i,
    {
        proof {
            assert(decreases_to!(xs => xs[i as int]));
        }
        let e = xs[i].equals(&ys[i]);
        proof {
            assert(xs@.take(i + 1).drop_last() =~= xs@.take(i as int));
            assert(ys@.take(i + 1).drop_last() =~= ys@.take(i as int));
        }
        if !e {
            proof {
                if same_types(xs@, ys@) {
                    lemma_same_types_prefix(xs@, ys@, i as int + 1);
                }
            }
            return false;
        }
        i += 1;
    }
    assert(xs@.take(i as int) =~= xs@);
    assert(ys@.take(i as int) =~= ys@);
    true
}

/// If two sequences are pairwise equal, so are their prefixes of length `n`.
proof fn lemma_same_types_prefix(xs: Seq<ChronosType>, ys: Seq<ChronosType>, n: int)
    requires
        0 <= n <= xs.len(),
        same_types(xs, ys),
    ensures
        same_types(xs.take(n), ys.take(n)),
    decreases xs.len(),
{
    if n < xs.len() {
        assert(xs.drop_last().take(n) =~= xs.take(n));
        assert(ys.drop_last().take(n) =~= ys.take(n));
        lemma_same_types_prefix(xs.drop_last(), ys.drop_last(), n);
    } else {
        assert(xs.take(n) =~= xs);
        assert(ys.take(n) =~= ys);
    }
}

impl ChronosType {
    /// Structural equality (what `==` on types means in the language).
    pub fn equals(&self, other: &ChronosType) -> (r: bool)
        ensures
            r == same_type(*self, *other),
        decreases self, 1nat,
    {
        match (self, other) {
            (ChronosType::Generic { base: x, type_args: xs }, ChronosType::Generic { base: y, type_args: ys }) =>
                *x == *y && types_all_equal(xs, ys),
            (ChronosType::Result { ok_type: x1, err_type: x2 }, ChronosType::Result { ok_type: y1, err_type: y2 }) =>
                x1.equals(y1) && x2.equals(y2),
            (ChronosType::Optional { inner: x }, ChronosType::Optional { inner: y }) => x.equals(y),
            (ChronosType::Reference { mutable: m, inner: x }, ChronosType::Reference { mutable: n, inner: y }) =>
                *m == *n && x.equals(y),
            (ChronosType::Tuple { elements: xs }, ChronosType::Tuple { elements: ys }) => types_all_equal(xs, ys),
            (ChronosType::Closure { params: xs, return_type: x }, ChronosType::Closure { params: ys, return_type: y }) =>
                types_all_equal(xs, ys) && x.equals(y),
            (ChronosType::Contract(x), ChronosType::Contract(y)) => *x == *y,
            (ChronosType::Enum(x), ChronosType::Enum(y)) => *x == *y,
            (ChronosType::Unresolved(x), ChronosType::Unresolved(y)) => *x == *y,
            (ChronosType::Int8, ChronosType::Int8) => true,
            (ChronosType::Int16, ChronosType::Int16) => true,
            (ChronosType::Int32, ChronosType::Int32) => true,
            (ChronosType::Int64, ChronosType::Int64) => true,
            (ChronosType::UInt8, ChronosType::UInt8) => true,
            (ChronosType::UInt16, ChronosType::UInt16) => true,
            (ChronosType::UInt32, ChronosType::UInt32) => true,
            (ChronosType::UInt64, ChronosType::UInt64) => true,
            (ChronosType::Float32, ChronosType::Float32) => true,
            (ChronosType::Float64, ChronosType::Float64) => true,
            (ChronosType::Bool, ChronosType::Bool) => true,
            (ChronosType::Char, ChronosType::Char) => true,
            (ChronosType::StringType, ChronosType::StringType) => true,
            (ChronosType::Void, ChronosType::Void) => true,
            (ChronosType::SelfType, ChronosType::SelfType) => true,
            (ChronosType::Error, ChronosType::Error) => true,
            _ => false,
        }
    }
}


/// Whether a value of type `source` may be stored where `target` is expected.
///
/// References follow the rule the type checker states beside it: `&mut T`
/// may be stored where `&T` is expected, but not the reverse, so a `&mut`
/// target needs a `&mut` source (and assignable inner types).
pub open spec fn assignable(target: ChronosType, source: ChronosType) -> bool
    decreases target,
{
    if target is Error || source is Error {
        true
    } else if same_type(target, source) {
        true
    } else if target is Unresolved || source is Unresolved {
        true
    } else {
        match (target, source) {
            (ChronosType::Contract(a), ChronosType::Contract(b)) => a@ == b@,
            (ChronosType::Enum(a), ChronosType::Enum(b)) => a@ == b@,
            (ChronosType::Generic { base: a, type_args: xs }, ChronosType::Generic { base: b, type_args: ys }) =>
                a@ == b@ && all_assignable(xs@, ys@),
            (ChronosType::Reference { mutable: m1, inner: i1 }, ChronosType::Reference { mutable: m2, inner: i2 }) =>
                (!m1 || m2) && assignable(*i1, *i2),
            _ => false,
        }
    }
}

/// Same length, and each type of `xs` accepts the type at the same position in `ys`.
pub open spec fn all_assignable(xs: Seq<ChronosType>, ys: Seq<ChronosType>) -> bool
    decreases xs,
{
    if xs.len() != ys.len() {
        false
    } else if xs.len() == 0 {
        true
    } else {
        all_assignable(xs.drop_last(), ys.drop_last()) && assignable(xs.last(), ys.last())
    }
}

/// If every position accepts, every prefix does.
proof fn lemma_all_assignable_prefix(xs: Seq<ChronosType>, ys: Seq<ChronosType>, n: int)
    requires
        0 <= n <= xs.len(),
        all_assignable(xs, ys),
    ensures
        all_assignable(xs.take(n), ys.take(n)),
    decreases xs.len(),
{
    if n < xs.len() {
        assert(xs.drop_last().take(n) =~= xs.take(n));
        assert(ys.drop_last().take(n) =~= ys.take(n));
        lemma_all_assignable_prefix(xs.drop_last(), ys.drop_last(), n);
    } else {
        assert(xs.take(n) =~= xs);
        assert(ys.take(n) =~= ys);
    }
}

fn all_args_assignable(xs: &Vec<ChronosType>, ys: &Vec<ChronosType>) -> (r: bool)
    ensures
        r == all_assignable(xs@, ys@),
    decreases xs, 0nat,
{
    if xs.len() != ys.len() {
        return false;
    }
    let mut i: usize = 0;
    while i < xs.len()
        invariant
            i <= xs.len(),
            xs.len() == ys.len(),
            all_assignable(xs@.take(i as int), ys@.take(i as int)),
        decreases xs.len() - i,
    {
        proof {
            assert(decreases_to!(xs => xs[i as int]));
        }
        let e = xs[i].is_assignable_from(&ys[i]);
        proof {
            assert(xs@.take(i + 1).drop_last() =~= xs@.take(i as int));
            assert(ys@.take(i + 1).drop_last() =~= ys@.take(i as int));
        }
        if !e {
            proof {
                if all_assignable(xs@, ys@) {
                    lemma_all_assignable_prefix(xs@, ys@, i as int + 1);
                }
            }
            return false;
        }
        i += 1;
    }
    assert(xs@.take(i as int) =~= xs@);
    assert(ys@.take(i as int) =~= ys@);
    true
}

impl ChronosType {
    /// Can a value of type `other` be assigned to a place of type `self`?
    ///
    /// `Error` and unresolved types are compatible with everything, equal types
    /// are compatible, contracts and enums by name, generic types when their
    /// bases agree and each argument is compatible, and references when the
    /// inner types are compatible, except that a place of mutable-reference
    /// type does not accept a shared reference (a `&mut T` may be assigned to
    /// a `&T`, never the reverse).
    pub fn is_assignable_from(&self, other: &ChronosType) -> (r: bool)
        ensures
            r == assignable(*self, *other),
        decreases self, 1nat,
    {
        if matches!(self, ChronosType::Error) || matches!(other, ChronosType::Error) {
            return true;
        }
        if self.equals(other) {
            return true;
        }
        if matches!(self, ChronosType::Unresolved(_)) || matches!(other, ChronosType::Unresolved(_)) {
            return true;
        }
        match (self, other) {
            (ChronosType::Contract(a), ChronosType::Contract(b)) => *a == *b,
            (ChronosType::Enum(a), ChronosType::Enum(b)) => *a == *b,
            (ChronosType::Generic { base: a, type_args: xs }, ChronosType::Generic { base: b, type_args: ys }) =>
                *a == *b && all_args_assignable(xs, ys),
            (ChronosType::Reference { mutable: m1, inner: i1 }, ChronosType::Reference { mutable: m2, inner: i2 }) =>
                (!*m1 || *m2) && i1.is_assignable_from(i2),
            _ => false,
        }
    }
}

/// Structural equality is reflexive.
pub proof fn lemma_same_type_reflexive(t: ChronosType)
    ensures
        same_type(t, t),
    decreases t,
{
    match t {
        ChronosType::Generic { base, type_args } => lemma_same_types_reflexive(type_args@),
        ChronosType::Result { ok_type, err_type } => {
            lemma_same_type_reflexive(*ok_type);
            lemma_same_type_reflexive(*err_type);
        },
        ChronosType::Optional { inner } => lemma_same_type_reflexive(*inner),
        ChronosType::Reference { mutable, inner } => lemma_same_type_reflexive(*inner),
        ChronosType::Tuple { elements } => lemma_same_types_reflexive(elements@),
        ChronosType::Closure { params, return_type } => {
            lemma_same_types_reflexive(params@);
            lemma_same_type_reflexive(*return_type);
        },
        _ => {},
    }
}

/// Pairwise structural equality is reflexive.
pub proof fn lemma_same_types_reflexive(xs: Seq<ChronosType>)
    ensures
        same_types(xs, xs),
    decreases xs,
{
    if xs.len() > 0 {
        lemma_same_types_reflexive(xs.drop_last());
        lemma_same_type_reflexive(xs.last());
    }
}

/// Pairwise equal sequences have the same length and equal types at each
/// position.
pub proof fn lemma_same_types_pointwise(xs: Seq<ChronosType>, ys: Seq<ChronosType>)
    requires
        same_types(xs, ys),
    ensures
        xs.len() == ys.len(),
        forall|i: int| 0 <= i < xs.len() ==> same_type(#[trigger] xs[i], ys[i]),
    decreases xs.len(),
{
    if xs.len() > 0 {
        lemma_same_types_pointwise(xs.drop_last(), ys.drop_last());
        assert forall|i: int| 0 <= i < xs.len() implies same_type(#[trigger] xs[i], ys[i]) by {
            if i < xs.len() - 1 {
                assert(xs.drop_last()[i] == xs[i]);
                assert(ys.drop_last()[i] == ys[i]);
            }
        }
    }
}

/// `all_assignable` holds exactly when the lengths agree and each position
/// accepts.
pub proof fn lemma_all_assignable_pointwise(xs: Seq<ChronosType>, ys: Seq<ChronosType>)
    ensures
        all_assignable(xs, ys) <==> (xs.len() == ys.len() && forall|i: int|
            0 <= i < xs.len() ==> assignable(#[trigger] xs[i], ys[i])),
    decreases xs.len(),
{
    if xs.len() == ys.len() && xs.len() > 0 {
        lemma_all_assignable_pointwise(xs.drop_last(), ys.drop_last());
        if forall|i: int| 0 <= i < xs.len() ==> assignable(#[trigger] xs[i], ys[i]) {
            assert forall|i: int| 0 <= i < xs.drop_last().len() implies assignable(
                #[trigger] xs.drop_last()[i],
                ys.drop_last()[i],
            ) by {
                assert(xs.drop_last()[i] == xs[i]);
                assert(ys.drop_last()[i] == ys[i]);
            }
            assert(assignable(xs[xs.len() - 1], ys[ys.len() - 1]));
        }
        if all_assignable(xs, ys) {
            assert forall|i: int| 0 <= i < xs.len() implies assignable(#[trigger] xs[i], ys[i]) by {
                if i < xs.len() - 1 {
                    assert(xs.drop_last()[i] == xs[i]);
                    assert(ys.drop_last()[i] == ys[i]);
                }
            }
        }
    }
}

/// Every type accepts values of its own type.
pub proof fn law_assignable_reflexive(t: ChronosType)
    ensures
        assignable(t, t),
{
    lemma_same_type_reflexive(t);
}

/// Integers and floats are numeric, numeric types are primitive, and a
/// numeric type is either an integer or a float but not both.
pub proof fn law_type_classes(t: ChronosType)
    ensures
        t.spec_is_integer() ==> t.spec_is_numeric(),
        t.spec_is_float() ==> t.spec_is_numeric(),
        t.spec_is_numeric() ==> t.spec_is_primitive(),
        t.spec_is_numeric() <==> (t.spec_is_integer() || t.spec_is_float()),
        !(t.spec_is_integer() && t.spec_is_float()),
{
}


/// How a type is written in CHRONOS source and in diagnostics.
pub open spec fn type_text(t: ChronosType) -> Seq<char>
    decreases t,
{
    match t {
        ChronosType::Int8 => "Int8"@,
        ChronosType::Int16 => "Int16"@,
        ChronosType::Int32 => "Int32"@,
        ChronosType::Int64 => "Int64"@,
        ChronosType::UInt8 => "UInt8"@,
        ChronosType::UInt16 => "UInt16"@,
        ChronosType::UInt32 => "UInt32"@,
        ChronosType::UInt64 => "UInt64"@,
        ChronosType::Float32 => "Float32"@,
        ChronosType::Float64 => "Float64"@,
        ChronosType::Bool => "Bool"@,
        ChronosType::Char => "Char"@,
        ChronosType::StringType => "String"@,
        ChronosType::Void => "Void"@,
        ChronosType::SelfType => "Self"@,
        ChronosType::Error => "<error>"@,
        ChronosType::Contract(n) => n@,
        ChronosType::Enum(n) => n@,
        ChronosType::Unresolved(n) => n@,
        ChronosType::Generic { base, type_args } => base@ + "<"@ + types_text(type_args@) + ">"@,
        ChronosType::Result { ok_type, err_type } =>
            "Result<"@ + type_text(*ok_type) + ", "@ + type_text(*err_type) + ">"@,
        ChronosType::Optional { inner } => "Optional<"@ + type_text(*inner) + ">"@,
        ChronosType::Reference { mutable, inner } =>
            if mutable { "&mut "@ + type_text(*inner) } else { "&"@ + type_text(*inner) },
        ChronosType::Tuple { elements } => "Tuple<"@ + types_text(elements@) + ">"@,
        ChronosType::Closure { params, return_type } =>
            "Closure<("@ + types_text(params@) + ") -> "@ + type_text(*return_type) + ">"@,
    }
}

/// The texts of a sequence of types, separated by ", ".
pub open spec fn types_text(xs: Seq<ChronosType>) -> Seq<char>
    decreases xs,
{
    if xs.len() == 0 {
        Seq::empty()
    } else if xs.len() == 1 {
        type_text(xs[0])
    } else {
        types_text(xs.drop_last()) + ", "@ + type_text(xs.last())
    }
}

/// Appends the texts of `xs`, separated by ", ", to `out`.
fn append_types_text(xs: &Vec<ChronosType>, out: &mut String)
    ensures
        final(out)@ == old(out)@ + types_text(xs@),
    decreases xs, 0nat,
{
    let ghost start = out@;
    let mut i: usize = 0;
    while i < xs.len()
        invariant
            i <= xs.len(),
            out@ == start + types_text(xs@.take(i as int)),
        decreases xs.len() - i,
    {
        proof {
            assert(decreases_to!(xs => xs[i as int]));
        }
        let ghost before = out@;
        if i > 0 {
            out.append(", ");
        }
        let t = xs[i].to_text();
        out.append(t.as_str());
        proof {
            assert(xs@.take(i + 1).drop_last() =~= xs@.take(i as int));
            if i == 0 {
                assert(xs@.take(0) =~= Seq::<ChronosType>::empty());
                assert(xs@.take(1)[0] == xs@[0]);
            }
            assert(out@ =~= start + types_text(xs@.take(i + 1)));
        }
        i += 1;
    }
    assert(xs@.take(i as int) =~= xs@);
}

impl ChronosType {
    /// The type as it is written in source and shown in diagnostics.
    pub fn to_text(&self) -> (s: String)
        ensures
            s@ == type_text(*self),
        decreases self, 1nat,
    {
        let mut s = String::new();
        match self {
            ChronosType::Int8 => s.append("Int8"),
            ChronosType::Int16 => s.append("Int16"),
            ChronosType::Int32 => s.append("Int32"),
            ChronosType::Int64 => s.append("Int64"),
            ChronosType::UInt8 => s.append("UInt8"),
            ChronosType::UInt16 => s.append("UInt16"),
            ChronosType::UInt32 => s.append("UInt32"),
            ChronosType::UInt64 => s.append("UInt64"),
            ChronosType::Float32 => s.append("Float32"),
            ChronosType::Float64 => s.append("Float64"),
            ChronosType::Bool => s.append("Bool"),
            ChronosType::Char => s.append("Char"),
            ChronosType::StringType => s.append("String"),
            ChronosType::Void => s.append("Void"),
            ChronosType::SelfType => s.append("Self"),
            ChronosType::Error => s.append("<error>"),
            ChronosType::Contract(n) => s.append(n.as_str()),
            ChronosType::Enum(n) => s.append(n.as_str()),
            ChronosType::Unresolved(n) => s.append(n.as_str()),
            ChronosType::Generic { base, type_args } => {
                s.append(base.as_str());
                s.append("<");
                append_types_text(type_args, &mut s);
                s.append(">");
            },
            ChronosType::Result { ok_type, err_type } => {
                s.append("Result<");
                let a = ok_type.to_text();
                s.append(a.as_str());
                s.append(", ");
                let b = err_type.to_text();
                s.append(b.as_str());
                s.append(">");
            },
            ChronosType::Optional { inner } => {
                s.append("Optional<");
                let a = inner.to_text();
                s.append(a.as_str());
                s.append(">");
            },
            ChronosType::Reference { mutable, inner } => {
                if *mutable {
                    s.append("&mut ");
                } else {
                    s.append("&");
                }
                let a = inner.to_text();
                s.append(a.as_str());
            },
            ChronosType::Tuple { elements } => {
                s.append("Tuple<");
                append_types_text(elements, &mut s);
                s.append(">");
            },
            ChronosType::Closure { params, return_type } => {
                s.append("Closure<(");
                append_types_text(params, &mut s);
                s.append(") -> ");
                let a = return_type.to_text();
                s.append(a.as_str());
                s.append(">");
            },
        }
        s
    }
}

/// The type that a type name denotes before name resolution.
pub open spec fn type_of_name(name: Seq<char>) -> ChronosType {
    if name == "Int8"@ {
        ChronosType::Int8
    } else if name == "Int16"@ {
        ChronosType::Int16
    } else if name == "Int32"@ {
        ChronosType::Int32
    } else if name == "Int64"@ {
        ChronosType::Int64
    } else if name == "UInt8"@ {
        ChronosType::UInt8
    } else if name == "UInt16"@ {
        ChronosType::UInt16
    } else if name == "UInt32"@ {
        ChronosType::UInt32
    } else if name == "UInt64"@ {
        ChronosType::UInt64
    } else if name == "Float32"@ {
        ChronosType::Float32
    } else if name == "Float64"@ {
        ChronosType::Float64
    } else if name == "Bool"@ {
        ChronosType::Bool
    } else if name == "Char"@ {
        ChronosType::Char
    } else if name == "String"@ {
        ChronosType::StringType
    } else if name == "Void"@ {
        ChronosType::Void
    } else if name == "Self"@ {
        ChronosType::SelfType
    } else {
        ChronosType::Unresolved(arbitrary())
    }
}

impl ChronosType {
    /// The type named by `name`: a built-in type or `Self`, otherwise an
    /// unresolved type carrying the name.
    pub fn from_name(name: &str) -> (t: ChronosType)
        ensures
            t is Unresolved ==> t->Unresolved_0@ == name@,
            !(t is Unresolved) ==> t == type_of_name(name@),
            (type_of_name(name@) is Unresolved) <==> (t is Unresolved),
    {
        if str_eq(name, "Int8") {
            ChronosType::Int8
        } else if str_eq(name, "Int16") {
            ChronosType::Int16
        } else if str_eq(name, "Int32") {
            ChronosType::Int32
        } else if str_eq(name, "Int64") {
            ChronosType::Int64
        } else if str_eq(name, "UInt8") {
            ChronosType::UInt8
        } else if str_eq(name, "UInt16") {
            ChronosType::UInt16
        } else if str_eq(name, "UInt32") {
            ChronosType::UInt32
        } else if str_eq(name, "UInt64") {
            ChronosType::UInt64
        } else if str_eq(name, "Float32") {
            ChronosType::Float32
        } else if str_eq(name, "Float64") {
            ChronosType::Float64
        } else if str_eq(name, "Bool") {
            ChronosType::Bool
        } else if str_eq(name, "Char") {
            ChronosType::Char
        } else if str_eq(name, "String") {
            ChronosType::StringType
        } else if str_eq(name, "Void") {
            ChronosType::Void
        } else if str_eq(name, "Self") {
            ChronosType::SelfType
        } else {
            ChronosType::Unresolved(owned(name))
        }
    }
}

/// Reading back the written form of a primitive type gives the same type.
pub proof fn law_primitive_name_roundtrip(t: ChronosType)
    requires
        t.spec_is_primitive(),
    ensures
        type_of_name(type_text(t)) == t,
{
    reveal_strlit("Int8");
    assert("Int8"@.len() == 4);
    assert("Int8"@[0] == 'I');
    assert("Int8"@[1] == 'n');
    assert("Int8"@[2] == 't');
    assert("Int8"@[3] == '8');
    reveal_strlit("Int16");
    assert("Int16"@.len() == 5);
    assert("Int16"@[0] == 'I');
    assert("Int16"@[1] == 'n');
    assert("Int16"@[2] == 't');
    assert("Int16"@[3] == '1');
    assert("Int16"@[4] == '6');
    reveal_strlit("Int32");
    assert("Int32"@.len() == 5);
    assert("Int32"@[0] == 'I');
    assert("Int32"@[1] == 'n');
    assert("Int32"@[2] == 't');
    assert("Int32"@[3] == '3');
    assert("Int32"@[4] == '2');
    reveal_strlit("Int64");
    assert("Int64"@.len() == 5);
    assert("Int64"@[0] == 'I');
    assert("Int64"@[1] == 'n');
    assert("Int64"@[2] == 't');
    assert("Int64"@[3] == '6');
    assert("Int64"@[4] == '4');
    reveal_strlit("UInt8");
    assert("UInt8"@.len() == 5);
    assert("UInt8"@[0] == 'U');
    assert("UInt8"@[1] == 'I');
    assert("UInt8"@[2] == 'n');
    assert("UInt8"@[3] == 't');
    assert("UInt8"@[4] == '8');
    reveal_strlit("UInt16");
    assert("UInt16"@.len() == 6);
    assert("UInt16"@[0] == 'U');
    assert("UInt16"@[1] == 'I');
    assert("UInt16"@[2] == 'n');
    assert("UInt16"@[3] == 't');
    assert("UInt16"@[4] == '1');
    assert("UInt16"@[5] == '6');
    reveal_strlit("UInt32");
    assert("UInt32"@.len() == 6);
    assert("UInt32"@[0] == 'U');
    assert("UInt32"@[1] == 'I');
    assert("UInt32"@[2] == 'n');
    assert("UInt32"@[3] == 't');
    assert("UInt32"@[4] == '3');
    assert("UInt32"@[5] == '2');
    reveal_strlit("UInt64");
    assert("UInt64"@.len() == 6);
    assert("UInt64"@[0] == 'U');
    assert("UInt64"@[1] == 'I');
    assert("UInt64"@[2] == 'n');
    assert("UInt64"@[3] == 't');
    assert("UInt64"@[4] == '6');
    assert("UInt64"@[5] == '4');
    reveal_strlit("Float32");
    assert("Float32"@.len() == 7);
    assert("Float32"@[0] == 'F');
    assert("Float32"@[1] == 'l');
    assert("Float32"@[2] == 'o');
    assert("Float32"@[3] == 'a');
    assert("Float32"@[4] == 't');
    assert("Float32"@[5] == '3');
    assert("Float32"@[6] == '2');
    reveal_strlit("Float64");
    assert("Float64"@.len() == 7);
    assert("Float64"@[0] == 'F');
    assert("Float64"@[1] == 'l');
    assert("Float64"@[2] == 'o');
    assert("Float64"@[3] == 'a');
    assert("Float64"@[4] == 't');
    assert("Float64"@[5] == '6');
    assert("Float64"@[6] == '4');
    reveal_strlit("Bool");
    assert("Bool"@.len() == 4);
    assert("Bool"@[0] == 'B');
    assert("Bool"@[1] == 'o');
    assert("Bool"@[2] == 'o');
    assert("Bool"@[3] == 'l');
    reveal_strlit("Char");
    assert("Char"@.len() == 4);
    assert("Char"@[0] == 'C');
    assert("Char"@[1] == 'h');
    assert("Char"@[2] == 'a');
    assert("Char"@[3] == 'r');
    reveal_strlit("String");
    assert("String"@.len() == 6);
    assert("String"@[0] == 'S');
    assert("String"@[1] == 't');
    assert("String"@[2] == 'r');
    assert("String"@[3] == 'i');
    assert("String"@[4] == 'n');
    assert("String"@[5] == 'g');
    reveal_strlit("Void");
    assert("Void"@.len() == 4);
    assert("Void"@[0] == 'V');
    assert("Void"@[1] == 'o');
    assert("Void"@[2] == 'i');
    assert("Void"@[3] == 'd');
    reveal_strlit("Self");
    assert("Self"@.len() == 4);
    assert("Self"@[0] == 'S');
    assert("Self"@[1] == 'e');
    assert("Self"@[2] == 'l');
    assert("Self"@[3] == 'f');
    match t {
        ChronosType::Int8 => assert(type_of_name("Int8"@) == t),
        ChronosType::Int16 => assert(type_of_name("Int16"@) == t),
        ChronosType::Int32 => assert(type_of_name("Int32"@) == t),
        ChronosType::Int64 => assert(type_of_name("Int64"@) == t),
        ChronosType::UInt8 => assert(type_of_name("UInt8"@) == t),
        ChronosType::UInt16 => assert(type_of_name("UInt16"@) == t),
        ChronosType::UInt32 => assert(type_of_name("UInt32"@) == t),
        ChronosType::UInt64 => assert(type_of_name("UInt64"@) == t),
        ChronosType::Float32 => assert(type_of_name("Float32"@) == t),
        ChronosType::Float64 => assert(type_of_name("Float64"@) == t),
        ChronosType::Bool => assert(type_of_name("Bool"@) == t),
        ChronosType::Char => assert(type_of_name("Char"@) == t),
        ChronosType::StringType => assert(type_of_name("String"@) == t),
        ChronosType::Void => assert(type_of_name("Void"@) == t),
        _ => {},
    }
}

} // verus!
