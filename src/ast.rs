//! The typed syntax tree and its canonical text.
use vstd::prelude::*;
use crate::builder::lexeme_type;

verus! {

broadcast use vstd::std_specs::vec::group_vec_axioms;

/// A type annotation: a built-in type or a custom type name.
#[derive(Debug, PartialEq, Eq)]
pub enum Type {
    Bool,
    Uint8,
    Uint32,
    Uint64,
    Uint128,
    Uint256,
    Int8,
    Int32,
    Int64,
    Int128,
    Int256,
    Custom(String),
}

/// A name, with an optional type annotation.
#[derive(Debug, PartialEq, Eq)]
pub struct Identifier {
    pub identifier: String,
    pub yultype: Option<Type>,
}

/// `function name(parameters) -> returns { body }`.
#[derive(Debug, PartialEq, Eq)]
pub struct FunctionDefinition {
    pub name: Identifier,
    pub parameters: Vec<Identifier>,
    pub returns: Vec<Identifier>,
    pub block: Block,
}

/// The statement kinds that have a typed form.
#[derive(Debug, PartialEq, Eq)]
pub enum Statement {
    FunctionDefinition(FunctionDefinition),
    Break,
}

/// An ordered sequence of statements.
#[derive(Debug, PartialEq, Eq)]
pub struct Block {
    pub statements: Vec<Statement>,
}

/// A character that may start an identifier.
pub open spec fn is_identifier_start(c: char) -> bool {
    ('a' <= c && c <= 'z') || ('A' <= c && c <= 'Z') || c == '_' || c == '$'
}

/// A character that may continue an identifier.
pub open spec fn is_identifier_part(c: char) -> bool {
    is_identifier_start(c) || ('0' <= c && c <= '9') || c == '.'
}

/// An identifier lexeme: a start character, then identifier characters.
pub open spec fn is_identifier(s: Seq<char>) -> bool {
    &&& s.len() >= 1
    &&& is_identifier_start(s[0])
    &&& forall|k: int| 1 <= k < s.len() ==> is_identifier_part(#[trigger] s[k])
}

/// A type that prints as text that reads back as that type: a custom type
/// is named by an identifier that is no built-in lexeme.
pub open spec fn wf_type(t: Type) -> bool {
    match t {
        Type::Custom(name) => is_identifier(name@) && lexeme_type(name@) is None,
        _ => true,
    }
}

/// An identifier whose name is an identifier lexeme and whose type, if any,
/// is well formed.
pub open spec fn wf_identifier(id: Identifier) -> bool {
    &&& is_identifier(id.identifier@)
    &&& id.yultype is Some ==> wf_type(id.yultype->Some_0)
}

/// Every identifier of the list is well formed.
pub open spec fn wf_list(ids: Seq<Identifier>) -> bool {
    forall|i: int| 0 <= i < ids.len() ==> #[trigger] wf_identifier(ids[i])
}

/// A function whose name is an untyped identifier, whose parameters and
/// returns are well formed, and whose body is well formed.
pub open spec fn wf_function(f: FunctionDefinition) -> bool
    decreases f, 0nat,
{
    &&& is_identifier(f.name.identifier@)
    &&& f.name.yultype is None
    &&& wf_list(f.parameters@)
    &&& wf_list(f.returns@)
    &&& wf_block(f.block)
}

/// A `break`, or a well-formed function definition.
pub open spec fn wf_statement(s: Statement) -> bool
    decreases s, 0nat,
{
    match s {
        Statement::FunctionDefinition(f) => wf_function(f),
        Statement::Break => true,
    }
}

/// The first `k` statements of `b` are well formed.
pub open spec fn wf_statements(b: Block, k: nat) -> bool
    decreases b, k,
{
    if k == 0 || k > b.statements@.len() {
        true
    } else {
        wf_statements(b, (k - 1) as nat) && wf_statement(b.statements@[k - 1])
    }
}

/// Every statement of the block is well formed.
pub open spec fn wf_block(b: Block) -> bool
    decreases b, b.statements@.len() + 1,
{
    wf_statements(b, b.statements@.len())
}

/// Two types are the same: the same built-in type, or custom types with
/// the same name.
pub open spec fn same_type(a: Type, b: Type) -> bool {
    if a is Custom {
        b is Custom && a->Custom_0@ == b->Custom_0@
    } else {
        a == b
    }
}

/// Two identifiers have the same name and the same type annotation.
pub open spec fn same_identifier(a: Identifier, b: Identifier) -> bool {
    &&& a.identifier@ == b.identifier@
    &&& (a.yultype is Some <==> b.yultype is Some)
    &&& a.yultype is Some ==> same_type(a.yultype->Some_0, b.yultype->Some_0)
}

/// Two identifier lists agree entry by entry.
pub open spec fn same_list(a: Seq<Identifier>, b: Seq<Identifier>) -> bool {
    &&& a.len() == b.len()
    &&& forall|i: int| 0 <= i < a.len() ==> #[trigger] same_identifier(a[i], b[i])
}

/// Two function definitions agree in name, parameters, returns and body.
pub open spec fn same_function(a: FunctionDefinition, b: FunctionDefinition) -> bool
    decreases a, 0nat,
{
    &&& same_identifier(a.name, b.name)
    &&& same_list(a.parameters@, b.parameters@)
    &&& same_list(a.returns@, b.returns@)
    &&& same_block(a.block, b.block)
}

/// Two statements are of the same kind and agree.
pub open spec fn same_statement(a: Statement, b: Statement) -> bool
    decreases a, 0nat,
{
    match a {
        Statement::FunctionDefinition(f) => b is FunctionDefinition && same_function(
            f,
            b->FunctionDefinition_0,
        ),
        Statement::Break => b is Break,
    }
}

/// The first `k` statements of two blocks agree.
pub open spec fn same_statements(a: Block, b: Block, k: nat) -> bool
    decreases a, k,
{
    if k == 0 || k > a.statements@.len() || k > b.statements@.len() {
        true
    } else {
        same_statements(a, b, (k - 1) as nat) && same_statement(
            a.statements@[k - 1],
            b.statements@[k - 1],
        )
    }
}

/// Two blocks hold the same statements, in the same order: the blocks are
/// equal as syntax trees.
pub open spec fn same_block(a: Block, b: Block) -> bool
    decreases a, a.statements@.len() + 1,
{
    &&& a.statements@.len() == b.statements@.len()
    &&& same_statements(a, b, a.statements@.len())
}

/// The lexeme of a type.
pub open spec fn type_text(t: Type) -> Seq<char> {
    match t {
        Type::Bool => "bool"@,
        Type::Uint8 => "u8"@,
        Type::Uint32 => "u32"@,
        Type::Uint64 => "u64"@,
        Type::Uint128 => "u128"@,
        Type::Uint256 => "u256"@,
        Type::Int8 => "s8"@,
        Type::Int32 => "s32"@,
        Type::Int64 => "s64"@,
        Type::Int128 => "s128"@,
        Type::Int256 => "s256"@,
        Type::Custom(name) => name@,
    }
}

/// `name` or `name:type`.
pub open spec fn identifier_text(id: Identifier) -> Seq<char> {
    match id.yultype {
        Some(t) => id.identifier@ + ":"@ + type_text(t),
        None => id.identifier@,
    }
}

/// The identifiers, separated by `", "`.
pub open spec fn list_text(ids: Seq<Identifier>) -> Seq<char>
    decreases ids.len(),
{
    if ids.len() == 0 {
        Seq::empty()
    } else if ids.len() == 1 {
        identifier_text(ids[0])
    } else {
        list_text(ids.drop_last()) + ", "@ + identifier_text(ids.last())
    }
}

/// `function name(params) { ... }`, with ` -> returns` before the body when
/// there are returns.
pub open spec fn function_text(f: FunctionDefinition) -> Seq<char>
    decreases f, 0nat,
{
    "function "@ + identifier_text(f.name) + "("@ + list_text(f.parameters@) + ")"@ + (
    if f.returns@.len() == 0 {
        Seq::empty()
    } else {
        " -> "@ + list_text(f.returns@)
    }) + " "@ + block_text(f.block)
}

/// The text of a statement.
pub open spec fn statement_text(s: Statement) -> Seq<char>
    decreases s, 0nat,
{
    match s {
        Statement::FunctionDefinition(f) => function_text(f),
        Statement::Break => "break"@,
    }
}

/// The first `k` statements of `b`, each preceded by a space.
pub open spec fn statements_text(b: Block, k: nat) -> Seq<char>
    decreases b, k,
{
    if k == 0 || k > b.statements@.len() {
        Seq::empty()
    } else {
        statements_text(b, (k - 1) as nat) + " "@ + statement_text(b.statements@[k - 1])
    }
}

/// `{ s1 s2 ... }`; the empty block is `{ }`.
pub open spec fn block_text(b: Block) -> Seq<char>
    decreases b, b.statements@.len() + 1,
{
    "{"@ + statements_text(b, b.statements@.len()) + " }"@
}

impl Type {
    /// Prints the type: its lexeme, or the custom name.
    pub fn to_string(&self) -> (r: String)
        ensures
            r@ == type_text(*self),
    {
        match self {
            Type::Bool => String::from_str("bool"),
            Type::Uint8 => String::from_str("u8"),
            Type::Uint32 => String::from_str("u32"),
            Type::Uint64 => String::from_str("u64"),
            Type::Uint128 => String::from_str("u128"),
            Type::Uint256 => String::from_str("u256"),
            Type::Int8 => String::from_str("s8"),
            Type::Int32 => String::from_str("s32"),
            Type::Int64 => String::from_str("s64"),
            Type::Int128 => String::from_str("s128"),
            Type::Int256 => String::from_str("s256"),
            Type::Custom(name) => name.clone(),
        }
    }
}

impl Identifier {
    /// Prints `name` or `name:type`.
    pub fn to_string(&self) -> (r: String)
        ensures
            r@ == identifier_text(*self),
    {
        let mut r = self.identifier.clone();
        match &self.yultype {
            Some(t) => {
                r.append(":");
                let ts = t.to_string();
                r.append(ts.as_str());
            },
            None => {},
        }
        r
    }
}

/// Prints the identifiers separated by `", "`.
pub fn list_to_string(ids: &Vec<Identifier>) -> (r: String)
    ensures
        r@ == list_text(ids@),
{
    let mut r = String::new();
    let mut i: usize = 0;
    while i < ids.len()
        invariant
            0 <= i <= ids@.len(),
            r@ == list_text(ids@.take(i as int)),
        decreases ids@.len() - i,
    {
        if i > 0 {
            r.append(", ");
        }
        let s = ids[i].to_string();
        r.append(s.as_str());
        proof {
            let next = ids@.take(i + 1);
            assert(next.drop_last() =~= ids@.take(i as int));
            assert(next.last() == ids@[i as int]);
            if i == 0 {
                assert(r@ =~= list_text(next));
            }
        }
        i = i + 1;
    }
    assert(ids@.take(i as int) =~= ids@);
    r
}

impl FunctionDefinition {
    /// Prints `function name(params) -> returns { ... }`; the arrow and the
    /// returns are left out when there are none.
    pub fn to_string(&self) -> (r: String)
        ensures
            r@ == function_text(*self),
        decreases *self, 0nat,
    {
        let mut r = String::from_str("function ");
        let n = self.name.to_string();
        r.append(n.as_str());
        r.append("(");
        let p = list_to_string(&self.parameters);
        r.append(p.as_str());
        r.append(")");
        if self.returns.len() > 0 {
            r.append(" -> ");
            let q = list_to_string(&self.returns);
            r.append(q.as_str());
        }
        r.append(" ");
        let b = self.block.to_string();
        r.append(b.as_str());
        assert(r@ =~= function_text(*self));
        r
    }
}

impl Statement {
    /// Prints the statement.
    pub fn to_string(&self) -> (r: String)
        ensures
            r@ == statement_text(*self),
        decreases *self, 0nat,
    {
        match self {
            Statement::FunctionDefinition(f) => f.to_string(),
            Statement::Break => String::from_str("break"),
        }
    }
}

impl Block {
    /// Prints `{`, each statement after a space, then ` }`.
    pub fn to_string(&self) -> (r: String)
        ensures
            r@ == block_text(*self),
        decreases *self, self.statements@.len() + 1,
    {
        let mut r = String::from_str("{");
        let mut i: usize = 0;
        while i < self.statements.len()
            invariant
                0 <= i <= self.statements@.len(),
                r@ == "{"@ + statements_text(*self, i as nat),
            decreases self.statements@.len() - i,
        {
            r.append(" ");
            let s = self.statements[i].to_string();
            r.append(s.as_str());
            assert(r@ =~= "{"@ + statements_text(*self, (i + 1) as nat));
            i = i + 1;
        }
        r.append(" }");
        r
    }
}

} // verus!
