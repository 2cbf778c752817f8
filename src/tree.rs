//! Rule-tagged parse trees and the errors of building a syntax tree from them.
use vstd::prelude::*;
use crate::ast::is_identifier;
use crate::builder::lexeme_type;

verus! {

/// The grammar rule that produced a parse-tree node.
#[derive(Debug, Clone, Copy, PartialEq, Eq, Structural)]
pub enum Rule {
    Block,
    Statement,
    FunctionDefinition,
    TypedParameterList,
    TypedIdentifierList,
    TypedIdentifier,
    TypeName,
    BuiltinTypename,
    Identifier,
    BreakContinue,
}

/// A parse-tree node: its rule, the text it matched, and its children in order.
#[derive(Debug)]
pub struct Node {
    pub rule: Rule,
    pub text: String,
    pub children: Vec<Node>,
}

/// Why a text gave no syntax tree.
#[derive(Debug, Clone, Copy, PartialEq, Eq, Structural)]
pub enum ParseError {
    /// The text does not match the grammar; the payload is the character
    /// position where matching stopped.
    GrammarMismatch(usize),
    /// A node with this rule stands where the builder expects another one.
    UnexpectedRule(Rule),
    /// A built-in type lexeme outside the table of types.
    UnsupportedType,
    /// A statement kind with no typed form.
    UnsupportedStatement(Rule),
}

/// The texts of the first `k` nodes, separated by `", "`.
pub open spec fn joined_text(cs: Seq<Node>, k: nat) -> Seq<char>
    decreases k,
{
    if k == 0 || k > cs.len() {
        Seq::empty()
    } else if k == 1 {
        cs[0].text@
    } else {
        joined_text(cs, (k - 1) as nat) + ", "@ + cs[k - 1].text@
    }
}

/// A `type_name` node whose text is that of its single child, an
/// identifier lexeme tagged as a built-in type exactly when the table has it.
pub open spec fn type_layout(n: Node) -> bool {
    &&& n.children@.len() == 1
    &&& n.text@ == n.children@[0].text@
    &&& is_identifier(n.children@[0].text@)
    &&& (n.children@[0].rule == Rule::BuiltinTypename <==> lexeme_type(n.children@[0].text@) is Some)
}

/// A `typed_identifier` node laid out as `name` or `name:type`.
pub open spec fn typed_identifier_layout(n: Node) -> bool {
    let cs = n.children@;
    &&& cs.len() >= 1
    &&& is_identifier(cs[0].text@)
    &&& if cs.len() == 1 {
        n.text@ == cs[0].text@
    } else {
        n.text@ == cs[0].text@ + ":"@ + cs[1].text@ && type_layout(cs[1])
    }
}

/// A non-empty list node laid out as its entries separated by `", "`.
pub open spec fn list_layout(n: Node) -> bool {
    let cs = n.children@;
    &&& cs.len() >= 1
    &&& n.text@ == joined_text(cs, cs.len())
    &&& forall|i: int| 0 <= i < cs.len() ==> #[trigger] typed_identifier_layout(cs[i])
}

/// A function node laid out as `function name(params) -> returns body`,
/// where the parameters are its parameter list's text, if it has one, and
/// ` -> returns` stands only where it has a return list.
pub open spec fn function_layout(n: Node) -> bool
    decreases n, 0nat,
{
    let cs = n.children@;
    let has_p = cs.len() > 1 && cs[1].rule == Rule::TypedParameterList;
    let r = if has_p {
        2int
    } else {
        1int
    };
    let has_r = cs.len() > r && cs[r].rule == Rule::TypedIdentifierList;
    let b = if has_r {
        r + 1
    } else {
        r
    };
    &&& 1 <= b < cs.len()
    &&& is_identifier(cs[0].text@)
    &&& n.text@ == "function "@ + cs[0].text@ + "("@ + (if has_p {
        cs[1].text@
    } else {
        Seq::empty()
    }) + ")"@ + (if has_r {
        " -> "@ + cs[r].text@
    } else {
        Seq::empty()
    }) + " "@ + cs[b].text@
    &&& has_p ==> list_layout(cs[1])
    &&& has_r ==> list_layout(cs[r])
    &&& block_layout(cs[b])
}

/// A statement node whose text is that of its single child.
pub open spec fn statement_layout(n: Node) -> bool
    decreases n, 1nat,
{
    let cs = n.children@;
    &&& cs.len() == 1
    &&& n.text@ == cs[0].text@
    &&& cs[0].rule == Rule::FunctionDefinition ==> function_layout(cs[0])
    &&& cs[0].rule == Rule::BreakContinue ==> (cs[0].text@ == "break"@ || cs[0].text@
        == "continue"@)
}

/// The texts of the first `k` nodes, each preceded by a space.
pub open spec fn items_text(cs: Seq<Node>, k: nat) -> Seq<char>
    decreases k,
{
    if k == 0 || k > cs.len() {
        Seq::empty()
    } else {
        items_text(cs, (k - 1) as nat) + " "@ + cs[k - 1].text@
    }
}

/// The first `k` nodes are statements laid out canonically.
pub open spec fn items_layout(cs: Seq<Node>, k: nat) -> bool
    decreases cs, k,
{
    if k == 0 || k > cs.len() {
        true
    } else {
        items_layout(cs, (k - 1) as nat) && statement_layout(cs[k - 1])
    }
}

/// A block node laid out as `{`, each statement after a space, then ` }`.
pub open spec fn block_layout(n: Node) -> bool
    decreases n, n.children@.len() + 1,
{
    &&& n.text@ == "{"@ + items_text(n.children@, n.children@.len()) + " }"@
    &&& items_layout(n.children@, n.children@.len())
}

} // verus!
