//! Laws that relate the builder and the printer.
use vstd::prelude::*;
use crate::ast::{
    wf_block, wf_function, wf_identifier, wf_list, wf_statement, wf_statements, same_block, same_function, same_identifier, same_list, same_statement, same_statements,
    block_text, function_text, identifier_text, list_text, statement_text, statements_text,
    type_text, Block, FunctionDefinition, Identifier, Statement, Type,
};
use crate::builder::{
    block_error, block_item_error, block_items_error, body_at, builds_block, builds_function,
    builds_list, builds_statement, builds_statements, builds_type, builds_typed_identifier,
    function_error, has_parameters, has_returns, lexeme_type, list_error, list_item_error,
    returns_at, statement_error, type_error, typed_identifier_error,
};
use crate::tree::{
    block_layout, function_layout, items_layout, items_text, joined_text, list_layout,
    statement_layout, type_layout, typed_identifier_layout, Node, ParseError, Rule,
};

verus! {

broadcast use vstd::std_specs::vec::group_vec_axioms;

/// Every built-in lexeme prints back as itself.
pub proof fn lemma_lexeme_type_text(s: Seq<char>)
    requires
        lexeme_type(s) is Some,
    ensures
        type_text(lexeme_type(s)->Some_0) == s,
{
}

/// A type built from a canonically laid out node prints as the node's text.
pub proof fn lemma_type_round_trip(n: Node, t: Type)
    requires
        type_error(n) is None,
        builds_type(n, t),
        type_layout(n),
    ensures
        type_text(t) == n.text@,
{
    let c = n.children@[0];
    if c.rule == Rule::BuiltinTypename {
        lemma_lexeme_type_text(c.text@);
    }
}

/// An identifier built from a canonically laid out node prints as the node's text.
pub proof fn lemma_typed_identifier_round_trip(n: Node, id: Identifier)
    requires
        typed_identifier_error(n) is None,
        builds_typed_identifier(n, id),
        typed_identifier_layout(n),
    ensures
        identifier_text(id) == n.text@,
{
    if n.children@.len() > 1 {
        lemma_type_round_trip(n.children@[1], id.yultype->Some_0);
    }
}

proof fn lemma_list_error_none(cs: Seq<Node>, k: nat, j: int)
    requires
        k <= cs.len(),
        0 <= j < k,
        list_error(cs, k) is None,
    ensures
        list_item_error(cs[j]) is None,
    decreases k,
{
    if j < k - 1 {
        lemma_list_error_none(cs, (k - 1) as nat, j);
    }
}

proof fn lemma_list_prefix(n: Node, ids: Seq<Identifier>, k: nat)
    requires
        list_error(n.children@, n.children@.len()) is None,
        builds_list(n, ids),
        list_layout(n),
        k <= ids.len(),
    ensures
        list_text(ids.take(k as int)) == joined_text(n.children@, k),
    decreases k,
{
    let cs = n.children@;
    if k > 0 {
        lemma_list_prefix(n, ids, (k - 1) as nat);
        lemma_list_error_none(cs, cs.len(), k - 1);
        lemma_typed_identifier_round_trip(cs[k - 1], ids[k - 1]);
        let t = ids.take(k as int);
        assert(t.drop_last() =~= ids.take(k - 1));
        if k == 1 {
            assert(list_text(t) == identifier_text(t[0]));
        }
    }
}

/// An identifier list built from a canonically laid out node prints as the
/// node's text.
pub proof fn lemma_list_round_trip(n: Node, ids: Seq<Identifier>)
    requires
        list_error(n.children@, n.children@.len()) is None,
        builds_list(n, ids),
        list_layout(n),
    ensures
        list_text(ids) == n.text@,
{
    lemma_list_prefix(n, ids, ids.len());
    assert(ids.take(ids.len() as int) =~= ids);
}

proof fn lemma_block_error_none(cs: Seq<Node>, k: nat, j: int)
    requires
        k <= cs.len(),
        0 <= j < k,
        block_items_error(cs, k) is None,
    ensures
        block_item_error(cs[j]) is None,
    decreases k,
{
    if j < k - 1 {
        lemma_block_error_none(cs, (k - 1) as nat, j);
    }
}

proof fn lemma_builds_statements_at(cs: Seq<Node>, ss: Seq<Statement>, k: nat, j: int)
    requires
        k <= cs.len(),
        k <= ss.len(),
        0 <= j < k,
        builds_statements(cs, ss, k),
    ensures
        builds_statement(cs[j], ss[j]),
    decreases k,
{
    if j < k - 1 {
        lemma_builds_statements_at(cs, ss, (k - 1) as nat, j);
    }
}

proof fn lemma_items_layout_at(cs: Seq<Node>, k: nat, j: int)
    requires
        k <= cs.len(),
        0 <= j < k,
        items_layout(cs, k),
    ensures
        statement_layout(cs[j]),
    decreases k,
{
    if j < k - 1 {
        lemma_items_layout_at(cs, (k - 1) as nat, j);
    }
}

/// A function definition built from a canonically laid out node prints as
/// the node's text.
pub proof fn lemma_function_round_trip(n: Node, f: FunctionDefinition)
    requires
        function_error(n) is None,
        builds_function(n, f),
        function_layout(n),
    ensures
        function_text(f) == n.text@,
    decreases n, 0nat,
{
    let cs = n.children@;
    if has_parameters(n) {
        lemma_list_round_trip(cs[1], f.parameters@);
    }
    if has_returns(n) {
        lemma_list_round_trip(cs[returns_at(n)], f.returns@);
    }
    lemma_block_round_trip(cs[body_at(n)], f.block);
    assert(identifier_text(f.name) == cs[0].text@);
    if !has_parameters(n) {
        assert(list_text(f.parameters@) =~= Seq::<char>::empty());
    }
    assert(function_text(f) =~= n.text@);
}

/// A statement built from a canonically laid out node prints as the node's text.
pub proof fn lemma_statement_round_trip(n: Node, s: Statement)
    requires
        statement_error(n) is None,
        builds_statement(n, s),
        statement_layout(n),
    ensures
        statement_text(s) == n.text@,
    decreases n, 1nat,
{
    let c = n.children@[0];
    if c.rule == Rule::FunctionDefinition {
        lemma_function_round_trip(c, s->FunctionDefinition_0);
    }
}

proof fn lemma_statements_round_trip(n: Node, b: Block, k: nat)
    requires
        block_error(n) is None,
        builds_block(n, b),
        block_layout(n),
        k <= n.children@.len(),
    ensures
        statements_text(b, k) == items_text(n.children@, k),
    decreases n, k,
{
    if k > 0 {
        lemma_statements_round_trip(n, b, (k - 1) as nat);
        let len = n.children@.len();
        lemma_block_error_none(n.children@, len, k - 1);
        lemma_builds_statements_at(n.children@, b.statements@, len, k - 1);
        lemma_items_layout_at(n.children@, len, k - 1);
        lemma_statement_round_trip(n.children@[k - 1], b.statements@[k - 1]);
    }
}

/// Building a block from a canonically laid out parse tree and printing it
/// gives back exactly the text that the tree matched.
pub proof fn lemma_block_round_trip(n: Node, b: Block)
    requires
        block_error(n) is None,
        builds_block(n, b),
        block_layout(n),
    ensures
        block_text(b) == n.text@,
    decreases n, n.children@.len() + 1,
{
    lemma_statements_round_trip(n, b, n.children@.len());
}

/// Every built-in type prints as a lexeme that the table maps back to that
/// type, and a custom type prints as its name.
pub proof fn lemma_type_table_bijection(t: Type)
    ensures
        t is Custom ==> type_text(t) == t->Custom_0@,
        !(t is Custom) ==> lexeme_type(type_text(t)) == Some(t),
{
    reveal_strlit("bool");
    reveal_strlit("u8");
    reveal_strlit("u32");
    reveal_strlit("u64");
    reveal_strlit("u128");
    reveal_strlit("u256");
    reveal_strlit("s8");
    reveal_strlit("s32");
    reveal_strlit("s64");
    reveal_strlit("s128");
    reveal_strlit("s256");
    assert("bool"@[0] == 'b');
    assert("bool"@[1] == 'o');
    assert("bool"@[2] == 'o');
    assert("u8"@[0] == 'u');
    assert("u8"@[1] == '8');
    assert("u32"@[0] == 'u');
    assert("u32"@[1] == '3');
    assert("u32"@[2] == '2');
    assert("u64"@[0] == 'u');
    assert("u64"@[1] == '6');
    assert("u64"@[2] == '4');
    assert("u128"@[0] == 'u');
    assert("u128"@[1] == '1');
    assert("u128"@[2] == '2');
    assert("u256"@[0] == 'u');
    assert("u256"@[1] == '2');
    assert("u256"@[2] == '5');
    assert("s8"@[0] == 's');
    assert("s8"@[1] == '8');
    assert("s32"@[0] == 's');
    assert("s32"@[1] == '3');
    assert("s32"@[2] == '2');
    assert("s64"@[0] == 's');
    assert("s64"@[1] == '6');
    assert("s64"@[2] == '4');
    assert("s128"@[0] == 's');
    assert("s128"@[1] == '1');
    assert("s128"@[2] == '2');
    assert("s256"@[0] == 's');
    assert("s256"@[1] == '2');
    assert("s256"@[2] == '5');
}

/// A statement node whose child has a rule with no typed statement form
/// gives `UnsupportedStatement` with that rule.
pub proof fn lemma_unsupported_statement(n: Node)
    requires
        n.children@.len() == 1,
        n.children@[0].rule != Rule::FunctionDefinition,
        n.children@[0].rule != Rule::BreakContinue,
    ensures
        statement_error(n) == Some(ParseError::UnsupportedStatement(n.children@[0].rule)),
{
}

/// No statement is dropped: a block that builds has one statement for each
/// child, and each child is a statement node whose single child is a
/// function definition or `break`.
pub proof fn lemma_no_statement_dropped(n: Node, b: Block)
    requires
        block_error(n) is None,
        builds_block(n, b),
    ensures
        b.statements@.len() == n.children@.len(),
        forall|i: int|
            0 <= i < n.children@.len() ==> {
                let c = #[trigger] n.children@[i];
                &&& c.rule == Rule::Statement
                &&& c.children@.len() == 1
                &&& c.children@[0].rule == Rule::FunctionDefinition || (c.children@[0].rule
                    == Rule::BreakContinue && c.children@[0].text@ == "break"@)
            },
{
    assert forall|i: int| 0 <= i < n.children@.len() implies {
        let c = #[trigger] n.children@[i];
        &&& c.rule == Rule::Statement
        &&& c.children@.len() == 1
        &&& c.children@[0].rule == Rule::FunctionDefinition || (c.children@[0].rule
            == Rule::BreakContinue && c.children@[0].text@ == "break"@)
    } by {
        lemma_block_error_none(n.children@, n.children@.len(), i);
    }
}

/// The builder keeps the order of the statements: the `i`-th statement of
/// the block is the one that the `i`-th child describes; and the printer
/// prints them in that order.
pub proof fn lemma_order_preserved(n: Node, b: Block)
    requires
        block_error(n) is None,
        builds_block(n, b),
    ensures
        forall|i: int|
            0 <= i < n.children@.len() ==> #[trigger] builds_statement(
                n.children@[i],
                b.statements@[i],
            ),
        forall|k: nat|
            0 < k <= b.statements@.len() ==> #[trigger] statements_text(b, k) == statements_text(
                b,
                (k - 1) as nat,
            ) + " "@ + statement_text(b.statements@[k - 1]),
        block_text(b) == "{"@ + statements_text(b, b.statements@.len()) + " }"@,
{
    assert forall|i: int| 0 <= i < n.children@.len() implies #[trigger] builds_statement(
        n.children@[i],
        b.statements@[i],
    ) by {
        lemma_builds_statements_at(n.children@, b.statements@, n.children@.len(), i);
    }
}

/// A parse tree builds one syntax tree at most: two blocks built from the
/// same node are the same.
pub proof fn lemma_block_built_once(n: Node, a: Block, b: Block)
    requires
        builds_block(n, a),
        builds_block(n, b),
    ensures
        same_block(a, b),
    decreases n, n.children@.len() + 1,
{
    lemma_statements_built_once(n, a, b, n.children@.len());
}

proof fn lemma_statements_built_once(n: Node, a: Block, b: Block, k: nat)
    requires
        builds_block(n, a),
        builds_block(n, b),
        k <= n.children@.len(),
    ensures
        same_statements(a, b, k),
    decreases n, k,
{
    if k > 0 {
        lemma_statements_built_once(n, a, b, (k - 1) as nat);
        let len = n.children@.len();
        lemma_builds_statements_at(n.children@, a.statements@, len, k - 1);
        lemma_builds_statements_at(n.children@, b.statements@, len, k - 1);
        lemma_statement_built_once(n.children@[k - 1], a.statements@[k - 1], b.statements@[k - 1]);
    }
}

proof fn lemma_statement_built_once(n: Node, a: Statement, b: Statement)
    requires
        builds_statement(n, a),
        builds_statement(n, b),
    ensures
        same_statement(a, b),
    decreases n, 1nat,
{
    if a is FunctionDefinition {
        lemma_function_built_once(
            n.children@[0],
            a->FunctionDefinition_0,
            b->FunctionDefinition_0,
        );
    }
}

proof fn lemma_list_built_once(n: Node, a: Seq<Identifier>, b: Seq<Identifier>)
    requires
        builds_list(n, a),
        builds_list(n, b),
    ensures
        same_list(a, b),
{
    assert forall|i: int| 0 <= i < a.len() implies #[trigger] same_identifier(a[i], b[i]) by {
        assert(builds_typed_identifier(n.children@[i], a[i]));
        assert(builds_typed_identifier(n.children@[i], b[i]));
    }
}

proof fn lemma_function_built_once(n: Node, a: FunctionDefinition, b: FunctionDefinition)
    requires
        builds_function(n, a),
        builds_function(n, b),
    ensures
        same_function(a, b),
    decreases n, 0nat,
{
    let cs = n.children@;
    if has_parameters(n) {
        lemma_list_built_once(cs[1], a.parameters@, b.parameters@);
    }
    if has_returns(n) {
        lemma_list_built_once(cs[returns_at(n)], a.returns@, b.returns@);
    }
    lemma_block_built_once(cs[body_at(n)], a.block, b.block);
}

proof fn lemma_list_wf(n: Node, ids: Seq<Identifier>)
    requires
        list_error(n.children@, n.children@.len()) is None,
        builds_list(n, ids),
        list_layout(n),
    ensures
        wf_list(ids),
{
    assert forall|i: int| 0 <= i < ids.len() implies #[trigger] wf_identifier(ids[i]) by {
        let c = n.children@[i];
        lemma_list_error_none(n.children@, n.children@.len(), i);
        assert(builds_typed_identifier(c, ids[i]));
        assert(typed_identifier_layout(c));
    }
}

proof fn lemma_function_wf(n: Node, f: FunctionDefinition)
    requires
        function_error(n) is None,
        builds_function(n, f),
        function_layout(n),
    ensures
        wf_function(f),
    decreases n, 0nat,
{
    let cs = n.children@;
    if has_parameters(n) {
        lemma_list_wf(cs[1], f.parameters@);
    }
    if has_returns(n) {
        lemma_list_wf(cs[returns_at(n)], f.returns@);
    }
    lemma_block_wf(cs[body_at(n)], f.block);
}

proof fn lemma_statement_wf(n: Node, s: Statement)
    requires
        statement_error(n) is None,
        builds_statement(n, s),
        statement_layout(n),
    ensures
        wf_statement(s),
    decreases n, 1nat,
{
    if s is FunctionDefinition {
        lemma_function_wf(n.children@[0], s->FunctionDefinition_0);
    }
}

proof fn lemma_statements_wf(n: Node, b: Block, k: nat)
    requires
        block_error(n) is None,
        builds_block(n, b),
        block_layout(n),
        k <= n.children@.len(),
    ensures
        wf_statements(b, k),
    decreases n, k,
{
    if k > 0 {
        lemma_statements_wf(n, b, (k - 1) as nat);
        let len = n.children@.len();
        lemma_block_error_none(n.children@, len, k - 1);
        lemma_builds_statements_at(n.children@, b.statements@, len, k - 1);
        lemma_items_layout_at(n.children@, len, k - 1);
        lemma_statement_wf(n.children@[k - 1], b.statements@[k - 1]);
    }
}

/// A block built from a canonically laid out parse tree is well formed:
/// every name in it is an identifier lexeme, no custom type is named by a
/// built-in lexeme, and no function name carries a type.
pub proof fn lemma_block_wf(n: Node, b: Block)
    requires
        block_error(n) is None,
        builds_block(n, b),
        block_layout(n),
    ensures
        wf_block(b),
    decreases n, n.children@.len() + 1,
{
    lemma_statements_wf(n, b, n.children@.len());
}

/// Taking the parameter list out of a function node that builds leaves a
/// node that builds too, into a function without parameters whose name,
/// returns and body are the same.
pub proof fn lemma_parameters_independent(
    p1: Node,
    p2: Node,
    f1: FunctionDefinition,
    f2: FunctionDefinition,
)
    requires
        has_parameters(p1),
        p2.children@ == p1.children@.remove(1),
        function_error(p1) is None,
        builds_function(p1, f1),
    ensures
        function_error(p2) is None,
        builds_function(p2, f2) ==> {
            &&& f2.parameters@.len() == 0
            &&& same_identifier(f1.name, f2.name)
            &&& same_list(f1.returns@, f2.returns@)
            &&& same_block(f1.block, f2.block)
        },
{
    let c1 = p1.children@;
    let c2 = p2.children@;
    assert(c2[0] == c1[0]);
    assert(body_at(p1) == body_at(p2) + 1);
    assert(c2[body_at(p2)] == c1[body_at(p1)]);
    if has_returns(p1) {
        assert(c2[returns_at(p2)] == c1[returns_at(p1)]);
    }
    if builds_function(p2, f2) {
        if has_returns(p1) {
            lemma_list_built_once(c1[returns_at(p1)], f1.returns@, f2.returns@);
        }
        lemma_block_built_once(c1[body_at(p1)], f1.block, f2.block);
    }
}

/// Taking the return list out of a function node that builds leaves a node
/// that builds too, into a function without returns whose name, parameters
/// and body are the same.
pub proof fn lemma_returns_independent(
    p1: Node,
    p2: Node,
    f1: FunctionDefinition,
    f2: FunctionDefinition,
)
    requires
        has_returns(p1),
        p2.children@ == p1.children@.remove(returns_at(p1)),
        function_error(p1) is None,
        builds_function(p1, f1),
    ensures
        function_error(p2) is None,
        builds_function(p2, f2) ==> {
            &&& f2.returns@.len() == 0
            &&& same_identifier(f1.name, f2.name)
            &&& same_list(f1.parameters@, f2.parameters@)
            &&& same_block(f1.block, f2.block)
        },
{
    let c1 = p1.children@;
    let c2 = p2.children@;
    assert(c2[0] == c1[0]);
    if has_parameters(p1) {
        assert(c2[1] == c1[1]);
    }
    assert(body_at(p1) == body_at(p2) + 1);
    assert(c2[body_at(p2)] == c1[body_at(p1)]);
    if builds_function(p2, f2) {
        if has_parameters(p1) {
            lemma_list_built_once(c1[1], f1.parameters@, f2.parameters@);
        }
        lemma_block_built_once(c1[body_at(p1)], f1.block, f2.block);
    }
}

} // verus!
