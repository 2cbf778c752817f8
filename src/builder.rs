//! Building the typed syntax tree from a parse tree.
use vstd::prelude::*;
use crate::ast::{Block, FunctionDefinition, Identifier, Statement, Type};
use crate::tree::{Node, ParseError, Rule};

verus! {

broadcast use vstd::std_specs::vec::group_vec_axioms;

/// The built-in type that a lexeme names, if any.
pub open spec fn lexeme_type(s: Seq<char>) -> Option<Type> {
    if s == "bool"@ {
        Some(Type::Bool)
    } else if s == "u8"@ {
        Some(Type::Uint8)
    } else if s == "u32"@ {
        Some(Type::Uint32)
    } else if s == "u64"@ {
        Some(Type::Uint64)
    } else if s == "u128"@ {
        Some(Type::Uint128)
    } else if s == "u256"@ {
        Some(Type::Uint256)
    } else if s == "s8"@ {
        Some(Type::Int8)
    } else if s == "s32"@ {
        Some(Type::Int32)
    } else if s == "s64"@ {
        Some(Type::Int64)
    } else if s == "s128"@ {
        Some(Type::Int128)
    } else if s == "s256"@ {
        Some(Type::Int256)
    } else {
        None
    }
}

/// The first error in building a type from a `type_name` node, if any.
pub open spec fn type_error(n: Node) -> Option<ParseError> {
    if n.children@.len() != 1 {
        Some(ParseError::UnexpectedRule(n.rule))
    } else {
        let c = n.children@[0];
        if c.rule == Rule::Identifier {
            None
        } else if c.rule == Rule::BuiltinTypename {
            if lexeme_type(c.text@) is Some {
                None
            } else {
                Some(ParseError::UnsupportedType)
            }
        } else {
            Some(ParseError::UnexpectedRule(c.rule))
        }
    }
}

/// `t` is the type that the `type_name` node `n` describes.
pub open spec fn builds_type(n: Node, t: Type) -> bool {
    let c = n.children@[0];
    if c.rule == Rule::Identifier {
        match t {
            Type::Custom(name) => name@ == c.text@,
            _ => false,
        }
    } else {
        lexeme_type(c.text@) == Some(t)
    }
}

/// The first error in building an identifier from a `typed_identifier` node.
pub open spec fn typed_identifier_error(n: Node) -> Option<ParseError> {
    let cs = n.children@;
    if cs.len() == 0 {
        Some(ParseError::UnexpectedRule(n.rule))
    } else if cs[0].rule != Rule::Identifier {
        Some(ParseError::UnexpectedRule(cs[0].rule))
    } else if cs.len() == 1 {
        None
    } else if cs[1].rule != Rule::TypeName {
        Some(ParseError::UnexpectedRule(cs[1].rule))
    } else if type_error(cs[1]) is Some {
        type_error(cs[1])
    } else if cs.len() > 2 {
        Some(ParseError::UnexpectedRule(cs[2].rule))
    } else {
        None
    }
}

/// `id` is the identifier that the `typed_identifier` node `n` describes.
pub open spec fn builds_typed_identifier(n: Node, id: Identifier) -> bool {
    let cs = n.children@;
    &&& id.identifier@ == cs[0].text@
    &&& if cs.len() == 1 {
        id.yultype is None
    } else {
        id.yultype is Some && builds_type(cs[1], id.yultype->Some_0)
    }
}

/// The error of one entry of an identifier list.
pub open spec fn list_item_error(c: Node) -> Option<ParseError> {
    if c.rule != Rule::TypedIdentifier {
        Some(ParseError::UnexpectedRule(c.rule))
    } else {
        typed_identifier_error(c)
    }
}

/// The first error among the first `k` entries of an identifier list.
pub open spec fn list_error(cs: Seq<Node>, k: nat) -> Option<ParseError>
    decreases k,
{
    if k == 0 || k > cs.len() {
        None
    } else {
        match list_error(cs, (k - 1) as nat) {
            Some(e) => Some(e),
            None => list_item_error(cs[k - 1]),
        }
    }
}

/// `ids` are the identifiers that the list node `n` describes, in order.
pub open spec fn builds_list(n: Node, ids: Seq<Identifier>) -> bool {
    &&& ids.len() == n.children@.len()
    &&& forall|i: int|
        0 <= i < ids.len() ==> #[trigger] builds_typed_identifier(n.children@[i], ids[i])
}

/// Whether the function node `n` holds a parameter list (after its name).
pub open spec fn has_parameters(n: Node) -> bool {
    n.children@.len() > 1 && n.children@[1].rule == Rule::TypedParameterList
}

/// Where the return list of the function node `n` would stand.
pub open spec fn returns_at(n: Node) -> int {
    if has_parameters(n) {
        2
    } else {
        1
    }
}

/// Whether the function node `n` holds a return list.
pub open spec fn has_returns(n: Node) -> bool {
    n.children@.len() > returns_at(n) && n.children@[returns_at(n)].rule
        == Rule::TypedIdentifierList
}

/// Where the body of the function node `n` stands.
pub open spec fn body_at(n: Node) -> int {
    if has_returns(n) {
        returns_at(n) + 1
    } else {
        returns_at(n)
    }
}

/// The first error in building a function definition from node `n`.
pub open spec fn function_error(n: Node) -> Option<ParseError>
    decreases n, 0nat,
{
    let cs = n.children@;
    let b = body_at(n);
    if cs.len() == 0 {
        Some(ParseError::UnexpectedRule(n.rule))
    } else if cs[0].rule != Rule::Identifier {
        Some(ParseError::UnexpectedRule(cs[0].rule))
    } else if has_parameters(n) && list_error(cs[1].children@, cs[1].children@.len()) is Some {
        list_error(cs[1].children@, cs[1].children@.len())
    } else if has_returns(n) && list_error(
        cs[returns_at(n)].children@,
        cs[returns_at(n)].children@.len(),
    ) is Some {
        list_error(cs[returns_at(n)].children@, cs[returns_at(n)].children@.len())
    } else if b >= cs.len() {
        Some(ParseError::UnexpectedRule(n.rule))
    } else if cs[b].rule != Rule::Block {
        Some(ParseError::UnexpectedRule(cs[b].rule))
    } else if block_error(cs[b]) is Some {
        block_error(cs[b])
    } else if b + 1 < cs.len() {
        Some(ParseError::UnexpectedRule(cs[b + 1].rule))
    } else {
        None
    }
}

/// The first error in building a statement from node `n`.
pub open spec fn statement_error(n: Node) -> Option<ParseError>
    decreases n, 1nat,
{
    let cs = n.children@;
    if cs.len() == 0 {
        Some(ParseError::UnexpectedRule(n.rule))
    } else if cs.len() > 1 {
        Some(ParseError::UnexpectedRule(cs[1].rule))
    } else if cs[0].rule == Rule::FunctionDefinition {
        function_error(cs[0])
    } else if cs[0].rule == Rule::BreakContinue && cs[0].text@ == "break"@ {
        None
    } else {
        Some(ParseError::UnsupportedStatement(cs[0].rule))
    }
}

/// The error of one child of a block node.
pub open spec fn block_item_error(c: Node) -> Option<ParseError>
    decreases c, 2nat,
{
    if c.rule != Rule::Statement {
        Some(ParseError::UnexpectedRule(c.rule))
    } else {
        statement_error(c)
    }
}

/// The first error among the first `k` children of a block node.
pub open spec fn block_items_error(cs: Seq<Node>, k: nat) -> Option<ParseError>
    decreases cs, k,
{
    if k == 0 || k > cs.len() {
        None
    } else {
        match block_items_error(cs, (k - 1) as nat) {
            Some(e) => Some(e),
            None => block_item_error(cs[k - 1]),
        }
    }
}

/// The first error in building a block from node `n`.
pub open spec fn block_error(n: Node) -> Option<ParseError>
    decreases n, n.children@.len() + 1,
{
    block_items_error(n.children@, n.children@.len())
}

/// `f` is the function definition that node `n` describes.
pub open spec fn builds_function(n: Node, f: FunctionDefinition) -> bool
    decreases n, 0nat,
{
    let cs = n.children@;
    &&& cs.len() > 0
    &&& f.name.identifier@ == cs[0].text@
    &&& f.name.yultype is None
    &&& if has_parameters(n) {
        builds_list(cs[1], f.parameters@)
    } else {
        f.parameters@.len() == 0
    }
    &&& if has_returns(n) {
        builds_list(cs[returns_at(n)], f.returns@)
    } else {
        f.returns@.len() == 0
    }
    &&& 0 <= body_at(n) < cs.len()
    &&& builds_block(cs[body_at(n)], f.block)
}

/// `s` is the statement that node `n` describes.
pub open spec fn builds_statement(n: Node, s: Statement) -> bool
    decreases n, 1nat,
{
    let c = n.children@[0];
    if n.children@.len() == 0 {
        false
    } else if c.rule == Rule::FunctionDefinition {
        match s {
            Statement::FunctionDefinition(f) => builds_function(c, f),
            Statement::Break => false,
        }
    } else {
        s is Break
    }
}

/// The first `k` statements `ss` are those that the first `k` children
/// `cs` of a block node describe.
pub open spec fn builds_statements(cs: Seq<Node>, ss: Seq<Statement>, k: nat) -> bool
    decreases cs, k,
{
    if k == 0 || k > cs.len() || k > ss.len() {
        true
    } else {
        builds_statements(cs, ss, (k - 1) as nat) && builds_statement(cs[k - 1], ss[k - 1])
    }
}

/// `b` is the block that node `n` describes.
pub open spec fn builds_block(n: Node, b: Block) -> bool
    decreases n, n.children@.len() + 1,
{
    &&& b.statements@.len() == n.children@.len()
    &&& builds_statements(n.children@, b.statements@, n.children@.len())
}

/// Once one of the first `j` entries fails, the first error of any longer
/// prefix is that same error.
proof fn lemma_list_error_prefix(cs: Seq<Node>, j: nat, k: nat)
    requires
        j <= k <= cs.len(),
        list_error(cs, j) is Some,
    ensures
        list_error(cs, k) == list_error(cs, j),
    decreases k,
{
    if k > j {
        lemma_list_error_prefix(cs, j, (k - 1) as nat);
    }
}

/// Once one of the first `j` children fails, the first error of any longer
/// prefix is that same error.
proof fn lemma_block_error_prefix(cs: Seq<Node>, j: nat, k: nat)
    requires
        j <= k <= cs.len(),
        block_items_error(cs, j) is Some,
    ensures
        block_items_error(cs, k) == block_items_error(cs, j),
    decreases k,
{
    if k > j {
        lemma_block_error_prefix(cs, j, (k - 1) as nat);
    }
}

/// Only the first `k` statements matter to `builds_statements`.
pub proof fn lemma_builds_statements_prefix(
    cs: Seq<Node>,
    ds: Seq<Node>,
    ss: Seq<Statement>,
    tt: Seq<Statement>,
    k: nat,
)
    requires
        k <= ss.len(),
        k <= tt.len(),
        k <= cs.len(),
        k <= ds.len(),
        forall|j: int| 0 <= j < k ==> ss[j] == tt[j],
        forall|j: int| 0 <= j < k ==> cs[j] == ds[j],
        builds_statements(cs, ss, k),
    ensures
        builds_statements(ds, tt, k),
    decreases k,
{
    if k > 0 {
        lemma_builds_statements_prefix(cs, ds, ss, tt, (k - 1) as nat);
    }
}

/// Whether `s` is the lexeme `lit`.
fn is_lexeme(s: &String, lit: &str) -> (r: bool)
    ensures
        r == (s@ == lit@),
{
    let l = String::from_str(lit);
    *s == l
}

/// Looks up a built-in type lexeme.
pub fn builtin_type(s: &String) -> (r: Option<Type>)
    ensures
        r == lexeme_type(s@),
{
    if is_lexeme(s, "bool") {
        Some(Type::Bool)
    } else if is_lexeme(s, "u8") {
        Some(Type::Uint8)
    } else if is_lexeme(s, "u32") {
        Some(Type::Uint32)
    } else if is_lexeme(s, "u64") {
        Some(Type::Uint64)
    } else if is_lexeme(s, "u128") {
        Some(Type::Uint128)
    } else if is_lexeme(s, "u256") {
        Some(Type::Uint256)
    } else if is_lexeme(s, "s8") {
        Some(Type::Int8)
    } else if is_lexeme(s, "s32") {
        Some(Type::Int32)
    } else if is_lexeme(s, "s64") {
        Some(Type::Int64)
    } else if is_lexeme(s, "s128") {
        Some(Type::Int128)
    } else if is_lexeme(s, "s256") {
        Some(Type::Int256)
    } else {
        None
    }
}

impl Identifier {
    /// The text that an identifier node matched, verbatim.
    pub fn from(n: &Node) -> (r: String)
        ensures
            r@ == n.text@,
    {
        n.text.clone()
    }
}

impl Type {
    /// Builds a type from a `type_name` node: a custom type from an
    /// identifier child, a built-in type from a built-in lexeme.
    pub fn from(n: &Node) -> (r: Result<Type, ParseError>)
        ensures
            match r {
                Ok(t) => type_error(*n) is None && builds_type(*n, t),
                Err(e) => type_error(*n) == Some(e),
            },
    {
        if n.children.len() != 1 {
            return Err(ParseError::UnexpectedRule(n.rule));
        }
        let c = &n.children[0];
        match c.rule {
            Rule::Identifier => Ok(Type::Custom(Identifier::from(c))),
            Rule::BuiltinTypename => match builtin_type(&c.text) {
                Some(t) => Ok(t),
                None => Err(ParseError::UnsupportedType),
            },
            other => Err(ParseError::UnexpectedRule(other)),
        }
    }
}

/// Builds an identifier from a `typed_identifier` node: its name, and its
/// type when a `type_name` child follows the name.
pub fn parse_typed_identifier(n: &Node) -> (r: Result<Identifier, ParseError>)
    ensures
        match r {
            Ok(id) => typed_identifier_error(*n) is None && builds_typed_identifier(*n, id),
            Err(e) => typed_identifier_error(*n) == Some(e),
        },
{
    let len = n.children.len();
    if len == 0 {
        return Err(ParseError::UnexpectedRule(n.rule));
    }
    if n.children[0].rule != Rule::Identifier {
        return Err(ParseError::UnexpectedRule(n.children[0].rule));
    }
    let identifier = Identifier::from(&n.children[0]);
    if len == 1 {
        return Ok(Identifier { identifier, yultype: None });
    }
    if n.children[1].rule != Rule::TypeName {
        return Err(ParseError::UnexpectedRule(n.children[1].rule));
    }
    let t = match Type::from(&n.children[1]) {
        Ok(t) => t,
        Err(e) => {
            return Err(e);
        },
    };
    if len > 2 {
        return Err(ParseError::UnexpectedRule(n.children[2].rule));
    }
    Ok(Identifier { identifier, yultype: Some(t) })
}

/// Builds the identifiers of a parameter or return list node, in order.
pub fn parse_typed_parameter_list(n: &Node) -> (r: Result<Vec<Identifier>, ParseError>)
    ensures
        match r {
            Ok(ids) => list_error(n.children@, n.children@.len()) is None && builds_list(
                *n,
                ids@,
            ),
            Err(e) => list_error(n.children@, n.children@.len()) == Some(e),
        },
{
    let mut ids: Vec<Identifier> = Vec::new();
    let mut i: usize = 0;
    while i < n.children.len()
        invariant
            0 <= i <= n.children@.len(),
            ids@.len() == i,
            list_error(n.children@, i as nat) is None,
            forall|j: int|
                0 <= j < i ==> #[trigger] builds_typed_identifier(n.children@[j], ids@[j]),
        decreases n.children@.len() - i,
    {
        let c = &n.children[i];
        if c.rule != Rule::TypedIdentifier {
            proof {
                lemma_list_error_prefix(n.children@, (i + 1) as nat, n.children@.len());
            }
            return Err(ParseError::UnexpectedRule(c.rule));
        }
        match parse_typed_identifier(c) {
            Ok(id) => {
                ids.push(id);
            },
            Err(e) => {
                proof {
                    lemma_list_error_prefix(n.children@, (i + 1) as nat, n.children@.len());
                }
                return Err(e);
            },
        }
        i = i + 1;
    }
    Ok(ids)
}

impl FunctionDefinition {
    /// Builds a function definition from its node: the name, then a parameter
    /// list if the next child is one, then a return list if the next child is
    /// one, then the body.
    pub fn from(n: &Node) -> (r: Result<FunctionDefinition, ParseError>)
        ensures
            match r {
                Ok(f) => function_error(*n) is None && builds_function(*n, f),
                Err(e) => function_error(*n) == Some(e),
            },
        decreases *n, 0nat,
    {
        let len = n.children.len();
        if len == 0 {
            return Err(ParseError::UnexpectedRule(n.rule));
        }
        if n.children[0].rule != Rule::Identifier {
            return Err(ParseError::UnexpectedRule(n.children[0].rule));
        }
        let name = Identifier::from(&n.children[0]);
        let mut at: usize = 1;
        let mut parameters: Vec<Identifier> = Vec::new();
        if at < len && n.children[at].rule == Rule::TypedParameterList {
            match parse_typed_parameter_list(&n.children[at]) {
                Ok(ids) => {
                    parameters = ids;
                },
                Err(e) => {
                    return Err(e);
                },
            }
            at = at + 1;
        }
        assert(at == returns_at(*n));
        let mut rets: Vec<Identifier> = Vec::new();
        if at < len && n.children[at].rule == Rule::TypedIdentifierList {
            match parse_typed_parameter_list(&n.children[at]) {
                Ok(ids) => {
                    rets = ids;
                },
                Err(e) => {
                    return Err(e);
                },
            }
            at = at + 1;
        }
        assert(at == body_at(*n));
        if at >= len {
            return Err(ParseError::UnexpectedRule(n.rule));
        }
        if n.children[at].rule != Rule::Block {
            return Err(ParseError::UnexpectedRule(n.children[at].rule));
        }
        let block = match Block::from(&n.children[at]) {
            Ok(b) => b,
            Err(e) => {
                return Err(e);
            },
        };
        if at + 1 < len {
            return Err(ParseError::UnexpectedRule(n.children[at + 1].rule));
        }
        Ok(FunctionDefinition { name: Identifier { identifier: name, yultype: None }, parameters, returns: rets, block })
    }
}

impl Statement {
    /// Builds a statement from its node by the rule of its single child.
    pub fn from(n: &Node) -> (r: Result<Statement, ParseError>)
        ensures
            match r {
                Ok(s) => statement_error(*n) is None && builds_statement(*n, s),
                Err(e) => statement_error(*n) == Some(e),
            },
        decreases *n, 1nat,
    {
        let len = n.children.len();
        if len == 0 {
            return Err(ParseError::UnexpectedRule(n.rule));
        }
        if len > 1 {
            return Err(ParseError::UnexpectedRule(n.children[1].rule));
        }
        let c = &n.children[0];
        match c.rule {
            Rule::FunctionDefinition => match FunctionDefinition::from(c) {
                Ok(f) => Ok(Statement::FunctionDefinition(f)),
                Err(e) => Err(e),
            },
            Rule::BreakContinue => {
                if is_lexeme(&c.text, "break") {
                    Ok(Statement::Break)
                } else {
                    Err(ParseError::UnsupportedStatement(Rule::BreakContinue))
                }
            },
            other => Err(ParseError::UnsupportedStatement(other)),
        }
    }
}

impl Block {
    /// Builds a block from its node: every child must be a statement, and
    /// the statements keep their order.
    pub fn from(n: &Node) -> (r: Result<Block, ParseError>)
        ensures
            match r {
                Ok(b) => block_error(*n) is None && builds_block(*n, b),
                Err(e) => block_error(*n) == Some(e),
            },
        decreases *n, 2nat,
    {
        let mut statements: Vec<Statement> = Vec::new();
        let mut i: usize = 0;
        while i < n.children.len()
            invariant
                0 <= i <= n.children@.len(),
                statements@.len() == i,
                block_items_error(n.children@, i as nat) is None,
                builds_statements(n.children@, statements@, i as nat),
            decreases n.children@.len() - i,
        {
            let c = &n.children[i];
            assert(block_items_error(n.children@, (i + 1) as nat) == block_item_error(n.children@[i as int]));
            if c.rule != Rule::Statement {
                proof {
                    lemma_block_error_prefix(n.children@, (i + 1) as nat, n.children@.len());
                }
                return Err(ParseError::UnexpectedRule(c.rule));
            }
            match Statement::from(c) {
                Ok(s) => {
                    let ghost before = statements@;
                    statements.push(s);
                    proof {
                        lemma_builds_statements_prefix(n.children@, n.children@, before, statements@, i as nat);
                    }
                },
                Err(e) => {
                    proof {
                        lemma_block_error_prefix(n.children@, (i + 1) as nat, n.children@.len());
                    }
                    return Err(e);
                },
            }
            i = i + 1;
        }
        assert(block_error(*n) == block_items_error(n.children@, n.children@.len()));
        Ok(Block { statements })
    }
}

} // verus!
