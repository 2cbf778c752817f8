//! The grammar of the canonical text: from characters to a parse tree whose
//! layout is canonical.
use vstd::prelude::*;
use crate::ast::{
    block_text, function_text, identifier_text, is_identifier, is_identifier_part,
    is_identifier_start, list_text, statement_text, statements_text, type_text, wf_block,
    wf_function, wf_identifier, wf_list, wf_statement, wf_statements, wf_type, Block,
    FunctionDefinition, Identifier, Statement, Type,
};
use crate::laws::lemma_type_table_bijection;
use crate::builder::lemma_builds_statements_prefix;
use crate::builder::{
    builds_block, builds_function, builds_list, builds_statement, builds_statements, builds_type,
    builds_typed_identifier, block_error, block_items_error, body_at, builtin_type, function_error, has_parameters,
    block_item_error, has_returns, list_error, list_item_error, returns_at, statement_error, type_error,
    typed_identifier_error,
};
use crate::tree::{
    block_layout, function_layout, items_layout, items_text, joined_text, list_layout,
    statement_layout, type_layout, typed_identifier_layout, Node, ParseError, Rule,
};

verus! {

broadcast use vstd::std_specs::vec::group_vec_axioms;

/// The text `lit` stands at position `i` of `cs`.
pub open spec fn text_at(cs: Seq<char>, i: int, lit: Seq<char>) -> bool {
    0 <= i && i + lit.len() <= cs.len() && cs.subrange(i, i + lit.len()) == lit
}

/// No identifier character stands at `j`.
pub open spec fn ends_word(cs: Seq<char>, j: int) -> bool {
    j >= cs.len() || !is_identifier_part(cs[j])
}

/// What may follow a typed identifier: neither an identifier character nor `:`.
pub open spec fn ends_typed_identifier(cs: Seq<char>, j: int) -> bool {
    ends_word(cs, j) && (j >= cs.len() || cs[j] != ':')
}

/// What may follow an identifier list: what may follow a typed identifier,
/// and no `,`.
pub open spec fn ends_list(cs: Seq<char>, j: int) -> bool {
    ends_typed_identifier(cs, j) && (j >= cs.len() || cs[j] != ',')
}

/// Where an identifier of `len` characters stands at `i` and ends a word,
/// the scan stops right after it.
proof fn lemma_scan_exact(cs: Seq<char>, i: int, len: int, r: int)
    requires
        0 <= i,
        1 <= len,
        i + len <= cs.len(),
        is_identifier(cs.subrange(i, i + len)),
        ends_word(cs, i + len),
        i <= r <= cs.len(),
        r > i ==> is_identifier_start(cs[i]),
        forall|k: int| i < k < r ==> is_identifier_part(#[trigger] cs[k]),
        r < cs.len() ==> !(if r == i {
            is_identifier_start(cs[r])
        } else {
            is_identifier_part(cs[r])
        }),
    ensures
        r == i + len,
{
    let w = cs.subrange(i, i + len);
    assert(w[0] == cs[i]);
    if r < i + len && r > i {
        assert(w[r - i] == cs[r]);
    }
    if r > i + len {
        assert(is_identifier_part(cs[i + len]));
    }
}

/// What the scan reads is an identifier lexeme.
proof fn lemma_scanned_identifier(cs: Seq<char>, i: int, j: int)
    requires
        0 <= i < j <= cs.len(),
        is_identifier_start(cs[i]),
        forall|k: int| i < k < j ==> is_identifier_part(#[trigger] cs[k]),
    ensures
        is_identifier(cs.subrange(i, j)),
{
    let w = cs.subrange(i, j);
    assert(w[0] == cs[i]);
    assert forall|k: int| 1 <= k < w.len() implies is_identifier_part(#[trigger] w[k]) by {
        assert(w[k] == cs[i + k]);
    }
}

/// A piece of a text that stands at `i` stands at the matching position.
proof fn lemma_text_at_piece(cs: Seq<char>, i: int, t: Seq<char>, a: int, b: int)
    requires
        text_at(cs, i, t),
        0 <= a <= b <= t.len(),
    ensures
        cs.subrange(i + a, i + b) == t.subrange(a, b),
        text_at(cs, i + a, t.subrange(a, b)),
{
    assert(cs.subrange(i + a, i + b) =~= cs.subrange(i, i + t.len()).subrange(a, b));
}

/// Every built-in lexeme is an identifier.
proof fn lemma_builtin_lexeme_is_identifier(t: Type)
    requires
        !(t is Custom),
    ensures
        is_identifier(type_text(t)),
{
    reveal_strlit("bool");
    reveal_strlit("u8");
    reveal_strlit("u32");
    reveal_strlit("u64");
    reveal_strlit("u128");
    reveal_strlit("u256");
    reveal_strlit("s8");
    reveal_strlit("s32");
    reveal_strlit("s64");
    reveal_strlit("s128");
    reveal_strlit("s256");
}

/// The position after `lit`, if `lit` stands at position `i`.
fn eat(cs: &Vec<char>, i: usize, lit: &str) -> (r: Option<usize>)
    requires
        i <= cs@.len(),
    ensures
        r is Some <==> text_at(cs@, i as int, lit@),
        r is Some ==> r->Some_0 == i + lit@.len(),
{
    let n = lit.unicode_len();
    if n > cs.len() - i {
        return None;
    }
    let mut k: usize = 0;
    while k < n
        invariant
            k <= n,
            n == lit@.len(),
            i + n <= cs@.len(),
            cs@.len() == cs.len(),
            forall|m: int| 0 <= m < k ==> cs@[i + m] == lit@[m],
        decreases n - k,
    {
        if cs[i + k] != lit.get_char(k) {
            assert(cs@.subrange(i as int, i + n)[k as int] != lit@[k as int]);
            return None;
        }
        k = k + 1;
    }
    assert(cs@.subrange(i as int, i + n) =~= lit@);
    Some(i + n)
}

/// The end of the longest identifier that starts at `i`; `i` itself where
/// none does.
fn scan_identifier(cs: &Vec<char>, i: usize) -> (r: usize)
    requires
        i <= cs@.len(),
    ensures
        i <= r <= cs@.len(),
        r > i ==> is_identifier_start(cs@[i as int]),
        forall|k: int| i < k < r ==> is_identifier_part(#[trigger] cs@[k]),
        r < cs@.len() ==> !(if r == i {
            is_identifier_start(cs@[r as int])
        } else {
            is_identifier_part(cs@[r as int])
        }),
{
    if i >= cs.len() {
        return i;
    }
    let c = cs[i];
    if !(('a' <= c && c <= 'z') || ('A' <= c && c <= 'Z') || c == '_' || c == '$') {
        return i;
    }
    let mut j: usize = i + 1;
    while j < cs.len()
        invariant
            i < j <= cs@.len(),
            is_identifier_start(cs@[i as int]),
            forall|k: int| i < k < j ==> is_identifier_part(#[trigger] cs@[k]),
        decreases cs@.len() - j,
    {
        let d = cs[j];
        if !(('a' <= d && d <= 'z') || ('A' <= d && d <= 'Z') || d == '_' || d == '$' || (
        '0' <= d && d <= '9') || d == '.') {
            return j;
        }
        j = j + 1;
    }
    j
}

/// The text of `s` between two character positions.
fn span(s: &str, i: usize, j: usize) -> (r: String)
    requires
        i <= j <= s@.len(),
    ensures
        r@ == s@.subrange(i as int, j as int),
{
    String::from_str(s.substring_char(i, j))
}

/// A node without children that matched `s` between `i` and `j`.
fn leaf(s: &str, rule: Rule, i: usize, j: usize) -> (r: Node)
    requires
        i <= j <= s@.len(),
    ensures
        r.rule == rule,
        r.text@ == s@.subrange(i as int, j as int),
        r.children@.len() == 0,
{
    Node { rule, text: span(s, i, j), children: Vec::new() }
}

proof fn lemma_joined_text_push(cs: Seq<Node>, c: Node, k: nat)
    requires
        k <= cs.len(),
    ensures
        joined_text(cs.push(c), k) == joined_text(cs, k),
    decreases k,
{
    if k > 1 {
        lemma_joined_text_push(cs, c, (k - 1) as nat);
    }
}

proof fn lemma_items_push(cs: Seq<Node>, c: Node, k: nat)
    requires
        k <= cs.len(),
    ensures
        items_text(cs.push(c), k) == items_text(cs, k),
        items_layout(cs.push(c), k) == items_layout(cs, k),
    decreases k,
{
    if k > 0 {
        lemma_items_push(cs, c, (k - 1) as nat);
    }
}

/// Reads a type name at `i`: a built-in lexeme or a custom type.
fn parse_type_name_at(s: &str, cs: &Vec<char>, i: usize, Ghost(want): Ghost<Type>) -> (r: Result<
    (Node, usize),
    usize,
>)
    requires
        cs@ == s@,
        i <= cs@.len(),
    ensures
        match r {
            Ok((n, j)) => i < j <= cs@.len() && n.rule == Rule::TypeName && n.text@
                == cs@.subrange(i as int, j as int) && type_layout(n) && type_error(n) is None,
            Err(_) => true,
        },
        wf_type(want) && text_at(cs@, i as int, type_text(want)) && ends_word(
            cs@,
            i + type_text(want).len(),
        ) ==> r is Ok && r->Ok_0.1 == i + type_text(want).len() && builds_type(r->Ok_0.0, want),
{
    let j = scan_identifier(cs, i);
    proof {
        if j > i {
            lemma_scanned_identifier(cs@, i as int, j as int);
        }
        let t = type_text(want);
        if wf_type(want) && text_at(cs@, i as int, t) && ends_word(cs@, i + t.len()) {
            if !(want is Custom) {
                lemma_builtin_lexeme_is_identifier(want);
            }
            lemma_scan_exact(cs@, i as int, t.len() as int, j as int);
        }
    }
    if j == i {
        return Err(i);
    }
    let word = span(s, i, j);
    let rule = if builtin_type(&word).is_some() {
        Rule::BuiltinTypename
    } else {
        Rule::Identifier
    };
    proof {
        if j > i {
            lemma_scanned_identifier(cs@, i as int, j as int);
        }
        let t = type_text(want);
        if wf_type(want) && text_at(cs@, i as int, t) && ends_word(cs@, i + t.len()) {
            lemma_type_table_bijection(want);
            assert(word@ == t);
        }
    }
    let c = Node { rule, text: word, children: Vec::new() };
    let children = vec![c];
    Ok((Node { rule: Rule::TypeName, text: span(s, i, j), children }, j))
}

/// Reads `name` or `name:type` at `i`.
fn parse_typed_identifier_at(
    s: &str,
    cs: &Vec<char>,
    i: usize,
    Ghost(want): Ghost<Identifier>,
) -> (r: Result<(Node, usize), usize>)
    requires
        cs@ == s@,
        i <= cs@.len(),
    ensures
        match r {
            Ok((n, j)) => i < j <= cs@.len() && n.rule == Rule::TypedIdentifier && n.text@
                == cs@.subrange(i as int, j as int) && typed_identifier_layout(n)
                && typed_identifier_error(n) is None,
            Err(_) => true,
        },
        wf_identifier(want) && text_at(cs@, i as int, identifier_text(want))
            && ends_typed_identifier(cs@, i + identifier_text(want).len()) ==> r is Ok
            && r->Ok_0.1 == i + identifier_text(want).len() && builds_typed_identifier(
            r->Ok_0.0,
            want,
        ),
{
    proof {
        reveal_strlit(":");
    }
    let j = scan_identifier(cs, i);
    let ghost complete = wf_identifier(want) && text_at(cs@, i as int, identifier_text(want))
        && ends_typed_identifier(cs@, i + identifier_text(want).len());
    let ghost name_len: int = want.identifier@.len() as int;
    proof {
        if complete {
            let t = identifier_text(want);
            lemma_text_at_piece(cs@, i as int, t, 0, name_len);
            assert(t.subrange(0, name_len) =~= want.identifier@);
            if want.yultype is Some {
                assert(t[name_len] == ':');
                lemma_text_at_piece(cs@, i as int, t, name_len, name_len + 1);
                assert(cs@.subrange(i + name_len, i + name_len + 1)[0] == cs@[i + name_len]);
            }
            lemma_scan_exact(cs@, i as int, name_len, j as int);
        }
    }
    if j == i {
        return Err(i);
    }
    let name = leaf(s, Rule::Identifier, i, j);
    proof {
        lemma_scanned_identifier(cs@, i as int, j as int);
    }
    let ghost want_type = if want.yultype is Some {
        want.yultype->Some_0
    } else {
        Type::Bool
    };
    proof {
        if complete {
            let t = identifier_text(want);
            if want.yultype is Some {
                lemma_text_at_piece(cs@, i as int, t, name_len, name_len + 1);
                lemma_text_at_piece(cs@, i as int, t, name_len + 1, t.len() as int);
                assert(t.subrange(name_len + 1, t.len() as int) =~= type_text(want_type));
                assert(t.subrange(name_len, name_len + 1) =~= ":"@);
            } else {
                assert(!text_at(cs@, j as int, ":"@)) by {
                    if j < cs@.len() {
                        assert(cs@.subrange(j as int, j + 1)[0] == cs@[j as int]);
                    }
                }
            }
        }
    }
    match eat(cs, j, ":") {
        Some(k) => match parse_type_name_at(s, cs, k, Ghost(want_type)) {
            Ok((t, e)) => {
                assert(cs@.subrange(i as int, e as int) =~= cs@.subrange(i as int, j as int)
                    + cs@.subrange(j as int, k as int) + cs@.subrange(k as int, e as int));
                let children = vec![name, t];
                Ok((Node { rule: Rule::TypedIdentifier, text: span(s, i, e), children }, e))
            },
            Err(p) => Err(p),
        },
        None => {
            let children = vec![name];
            Ok((Node { rule: Rule::TypedIdentifier, text: span(s, i, j), children }, j))
        },
    }
}

proof fn lemma_list_text_prefix(ids: Seq<Identifier>, k: nat, m: nat)
    requires
        k <= m <= ids.len(),
    ensures
        list_text(ids.take(k as int)).len() <= list_text(ids.take(m as int)).len(),
        list_text(ids.take(m as int)).subrange(0, list_text(ids.take(k as int)).len() as int)
            == list_text(ids.take(k as int)),
    decreases m,
{
    let t = list_text(ids.take(m as int));
    if k < m {
        lemma_list_text_prefix(ids, k, (m - 1) as nat);
        assert(ids.take(m as int).drop_last() =~= ids.take(m - 1));
        let u = list_text(ids.take(m - 1));
        let v = list_text(ids.take(k as int));
        if m > 1 {
            assert(t.subrange(0, u.len() as int) =~= u);
        } else {
            assert(k == 0);
        }
        assert(t.subrange(0, v.len() as int) =~= u.subrange(0, v.len() as int));
    } else {
        assert(t.subrange(0, t.len() as int) =~= t);
    }
}

proof fn lemma_list_text_step(ids: Seq<Identifier>, k: nat)
    requires
        1 <= k < ids.len(),
    ensures
        list_text(ids.take(k + 1int)) == list_text(ids.take(k as int)) + ", "@ + identifier_text(
            ids[k as int],
        ),
{
    assert(ids.take(k + 1int).drop_last() =~= ids.take(k as int));
}

/// What stands after the first `k` entries of a list text, at `pos`: the
/// separator and the next entry, or, after the last entry, no separator.
proof fn lemma_list_step(cs: Seq<char>, i: int, want: Seq<Identifier>, k: int, pos: int)
    requires
        want.len() >= 1,
        wf_list(want),
        text_at(cs, i, list_text(want)),
        ends_list(cs, i + list_text(want).len()),
        1 <= k <= want.len(),
        pos == i + list_text(want.take(k)).len(),
    ensures
        k < want.len() ==> {
            let w = identifier_text(want[k]);
            &&& text_at(cs, pos, ", "@)
            &&& text_at(cs, pos + 2, w)
            &&& wf_identifier(want[k])
            &&& ends_typed_identifier(cs, pos + 2 + w.len())
            &&& pos + 2 + w.len() == i + list_text(want.take(k + 1)).len()
        },
        k == want.len() ==> !text_at(cs, pos, ", "@) && pos == i + list_text(want).len(),
{
    let whole = list_text(want);
    reveal_strlit(", ");
    if k < want.len() {
        lemma_list_text_prefix(want, (k + 1) as nat, want.len());
        lemma_list_text_step(want, k as nat);
        let u = list_text(want.take(k));
        let v = list_text(want.take(k + 1));
        let w = identifier_text(want[k]);
        let ul: int = u.len() as int;
        assert(want.take(want.len() as int) =~= want);
        lemma_text_at_piece(cs, i, whole, 0, v.len() as int);
        lemma_text_at_piece(cs, i, v, ul, ul + 2);
        lemma_text_at_piece(cs, i, v, ul + 2, v.len() as int);
        assert(v.subrange(ul, ul + 2) =~= ", "@);
        assert(v.subrange(ul + 2, v.len() as int) =~= w);
        assert(wf_identifier(want[k]));
        if k + 1 < want.len() {
            lemma_list_text_prefix(want, (k + 2) as nat, want.len());
            lemma_list_text_step(want, (k + 1) as nat);
            let x = list_text(want.take(k + 2));
            assert(x[v.len() as int] == ',');
            lemma_text_at_piece(cs, i, whole, 0, x.len() as int);
            assert(whole.subrange(0, x.len() as int)[v.len() as int] == ',');
            assert(cs.subrange(i, i + x.len())[v.len() as int] == cs[i + v.len()]);
        } else {
            assert(want.take(k + 1) =~= want);
        }
    } else {
        assert(want.take(k) =~= want);
        assert(!text_at(cs, pos, ", "@)) by {
            if pos + 2 <= cs.len() {
                assert(cs.subrange(pos, pos + 2)[0] == cs[pos]);
            }
        }
    }
}

/// Reads typed identifiers separated by `", "` at `i`, into a node of `rule`.
fn parse_list_at(
    s: &str,
    cs: &Vec<char>,
    i: usize,
    rule: Rule,
    Ghost(want): Ghost<Seq<Identifier>>,
) -> (r: Result<(Node, usize), usize>)
    requires
        cs@ == s@,
        i <= cs@.len(),
    ensures
        match r {
            Ok((n, j)) => i < j <= cs@.len() && n.rule == rule && n.text@ == cs@.subrange(
                i as int,
                j as int,
            ) && list_layout(n) && list_error(n.children@, n.children@.len()) is None,
            Err(_) => true,
        },
        want.len() >= 1 && wf_list(want) && text_at(cs@, i as int, list_text(want)) && ends_list(
            cs@,
            i + list_text(want).len(),
        ) ==> r is Ok && r->Ok_0.1 == i + list_text(want).len() && builds_list(r->Ok_0.0, want),
{
    proof {
        reveal_strlit(", ");
    }
    let ghost complete = want.len() >= 1 && wf_list(want) && text_at(cs@, i as int, list_text(want))
        && ends_list(cs@, i + list_text(want).len());
    let ghost whole = list_text(want);
    proof {
        if complete {
            lemma_list_text_prefix(want, 1, want.len());
            assert(want.take(1).drop_last() =~= Seq::<Identifier>::empty());
            assert(want.take(want.len() as int) =~= want);
            let f = identifier_text(want[0]);
            assert(list_text(want.take(1)) == f);
            lemma_text_at_piece(cs@, i as int, whole, 0, f.len() as int);
            assert(wf_identifier(want[0]));
            if want.len() > 1 {
                lemma_list_text_prefix(want, 2, want.len());
                lemma_list_text_step(want, 1);
                let v = list_text(want.take(2));
                assert(v[f.len() as int] == ',');
                lemma_text_at_piece(cs@, i as int, whole, 0, v.len() as int);
                assert(whole.subrange(0, v.len() as int)[f.len() as int] == ',');
                assert(cs@.subrange(i as int, i + v.len())[f.len() as int] == cs@[i + f.len()]);
            } else {
                assert(want.take(1) =~= want);
            }
        }
    }
    let (first, e0) = match parse_typed_identifier_at(
        s,
        cs,
        i,
        Ghost(if want.len() >= 1 { want[0] } else { arbitrary() }),
    ) {
        Ok(x) => x,
        Err(p) => {
            return Err(p);
        },
    };
    let mut children: Vec<Node> = vec![first];
    let mut pos = e0;
    assert(list_error(children@, 0) is None);
    assert(list_error(children@, 1) == list_item_error(children@[0]));
    loop
        invariant_except_break
            complete ==> children@.len() <= want.len() && pos == i + list_text(
                want.take(children@.len() as int),
            ).len() && forall|k: int|
                0 <= k < children@.len() ==> #[trigger] builds_typed_identifier(
                    children@[k],
                    want[k],
                ),
        invariant
            i < pos <= cs@.len(),
            cs@ == s@,
            whole == list_text(want),
            complete == (want.len() >= 1 && wf_list(want) && text_at(cs@, i as int, whole)
                && ends_list(cs@, i + whole.len())),
            children@.len() >= 1,
            cs@.subrange(i as int, pos as int) == joined_text(children@, children@.len()),
            forall|k: int|
                0 <= k < children@.len() ==> #[trigger] typed_identifier_layout(children@[k]),
            forall|k: int| 0 <= k < children@.len() ==> (#[trigger] children@[k]).rule == Rule::TypedIdentifier,
            list_error(children@, children@.len()) is None,
        ensures
            complete ==> pos == i + whole.len() && children@.len() == want.len() && forall|k: int|
                0 <= k < children@.len() ==> #[trigger] builds_typed_identifier(
                    children@[k],
                    want[k],
                ),
        decreases cs@.len() - pos,
    {
        let ghost k: int = children@.len() as int;
        proof {
            assert(", "@.len() == 2) by {
                reveal_strlit(", ");
            }
            if complete {
                lemma_list_step(cs@, i as int, want, k, pos as int);
            }
        }
        let q = match eat(cs, pos, ", ") {
            Some(q) => q,
            None => {
                break;
            },
        };
        match parse_typed_identifier_at(
            s,
            cs,
            q,
            Ghost(if k < want.len() { want[k as int] } else { arbitrary() }),
        ) {
            Ok((c, e)) => {
                let ghost before = children@;
                proof {
                    lemma_joined_text_push(before, c, before.len());
                    assert(cs@.subrange(i as int, e as int) =~= cs@.subrange(i as int, pos as int)
                        + cs@.subrange(pos as int, q as int) + cs@.subrange(q as int, e as int));
                    assert(list_error(before.push(c), before.len()) == list_error(before, before.len())) by {
                        lemma_list_error_push(before, c, before.len());
                    }
                }
                children.push(c);
                pos = e;
            },
            Err(p) => {
                return Err(p);
            },
        }
    }
    Ok((Node { rule, text: span(s, i, pos), children }, pos))
}

proof fn lemma_list_error_push(cs: Seq<Node>, c: Node, k: nat)
    requires
        k <= cs.len(),
    ensures
        list_error(cs.push(c), k) == list_error(cs, k),
    decreases k,
{
    if k > 0 {
        lemma_list_error_push(cs, c, (k - 1) as nat);
    }
}

proof fn lemma_list_text_first(ids: Seq<Identifier>)
    requires
        ids.len() >= 1,
        wf_list(ids),
    ensures
        list_text(ids).len() >= 1,
        list_text(ids)[0] == ids[0].identifier@[0],
    decreases ids.len(),
{
    assert(wf_identifier(ids[0]));
    if ids.len() > 1 {
        let d = ids.drop_last();
        assert(d[0] == ids[0]);
        assert forall|k: int| 0 <= k < d.len() implies #[trigger] wf_identifier(d[k]) by {
            assert(d[k] == ids[k]);
        }
        lemma_list_text_first(d);
    }
}

/// The pieces of a function text that stands at `i`, at the positions where
/// the reader looks for them.
proof fn lemma_function_pieces(
    cs: Seq<char>,
    i: int,
    f: FunctionDefinition,
    a1: int,
    a2: int,
    a3: int,
    a4: int,
    a5: int,
    a6: int,
    a7: int,
)
    requires
        0 <= i,
        wf_function(f),
        text_at(cs, i, function_text(f)),
        a1 == i + 9 + f.name.identifier@.len(),
        a2 == a1 + 1,
        a3 == a2 + list_text(f.parameters@).len(),
        a4 == a3 + 1,
        a5 == a4 + (if f.returns@.len() == 0 {
            0
        } else {
            4 + list_text(f.returns@).len()
        }),
        a6 == a5 + 1,
        a7 == a6 + block_text(f.block).len(),
    ensures
        text_at(cs, i, "function "@),
        text_at(cs, i + 9, f.name.identifier@),
        ends_word(cs, a1),
        text_at(cs, a1, "("@),
        f.parameters@.len() == 0 ==> text_at(cs, a2, ")"@),
        f.parameters@.len() > 0 ==> !text_at(cs, a2, ")"@) && text_at(
            cs,
            a2,
            list_text(f.parameters@),
        ) && ends_list(cs, a3),
        text_at(cs, a3, ")"@),
        f.returns@.len() > 0 ==> text_at(cs, a4, " -> "@) && text_at(
            cs,
            a4 + 4,
            list_text(f.returns@),
        ) && ends_list(cs, a5),
        f.returns@.len() == 0 ==> !text_at(cs, a4, " -> "@),
        text_at(cs, a5, " "@),
        text_at(cs, a6, block_text(f.block)),
        a7 == i + function_text(f).len(),
{
    reveal_strlit("function ");
    reveal_strlit("(");
    reveal_strlit(")");
    reveal_strlit(" -> ");
    reveal_strlit(" ");
    reveal_strlit("{");
    let t = function_text(f);
    let nm = f.name.identifier@;
    let pp = list_text(f.parameters@);
    let rr = if f.returns@.len() == 0 {
        Seq::<char>::empty()
    } else {
        " -> "@ + list_text(f.returns@)
    };
    let bb = block_text(f.block);
    assert(identifier_text(f.name) == nm);
    assert(t == "function "@ + nm + "("@ + pp + ")"@ + rr + " "@ + bb);
    let o = i;
    lemma_text_at_piece(cs, o, t, 0, 9);
    assert(t.subrange(0, 9) =~= "function "@);
    lemma_text_at_piece(cs, o, t, 9, a1 - o);
    assert(t.subrange(9, a1 - o) =~= nm);
    lemma_text_at_piece(cs, o, t, a1 - o, a2 - o);
    assert(t.subrange(a1 - o, a2 - o) =~= "("@);
    assert(cs.subrange(a1, a2)[0] == cs[a1]);
    lemma_text_at_piece(cs, o, t, a2 - o, a3 - o);
    assert(t.subrange(a2 - o, a3 - o) =~= pp);
    lemma_text_at_piece(cs, o, t, a3 - o, a4 - o);
    assert(t.subrange(a3 - o, a4 - o) =~= ")"@);
    assert(cs.subrange(a3, a4)[0] == cs[a3]);
    lemma_text_at_piece(cs, o, t, a4 - o, a5 - o);
    assert(t.subrange(a4 - o, a5 - o) =~= rr);
    lemma_text_at_piece(cs, o, t, a5 - o, a6 - o);
    assert(t.subrange(a5 - o, a6 - o) =~= " "@);
    assert(cs.subrange(a5, a6)[0] == cs[a5]);
    lemma_text_at_piece(cs, o, t, a6 - o, a7 - o);
    assert(t.subrange(a6 - o, a7 - o) =~= bb);
    if f.parameters@.len() > 0 {
        lemma_list_text_first(f.parameters@);
        assert(wf_identifier(f.parameters@[0]));
        assert(cs.subrange(a2, a3)[0] == cs[a2]);
        assert(!text_at(cs, a2, ")"@)) by {
            assert(cs.subrange(a2, a2 + 1)[0] == cs[a2]);
        }
    }
    if f.returns@.len() > 0 {
        lemma_text_at_piece(cs, a4, rr, 0, 4);
        assert(rr.subrange(0, 4) =~= " -> "@);
        lemma_text_at_piece(cs, a4, rr, 4, rr.len() as int);
        assert(rr.subrange(4, rr.len() as int) =~= list_text(f.returns@));
    } else {
        assert(bb[0] == '{');
        assert(cs.subrange(a6, a7)[0] == cs[a6]);
        assert(!text_at(cs, a4, " -> "@)) by {
            if a4 + 4 <= cs.len() {
                assert(cs.subrange(a4, a4 + 4)[1] == cs[a4 + 1]);
            }
        }
    }
}

/// Reads `function name(params) -> returns { ... }` at `i`; the parameter
/// list may be empty, and ` -> returns` may be left out.
#[verifier::rlimit(60)]
fn parse_function_at(s: &str, cs: &Vec<char>, i: usize, Ghost(want): Ghost<FunctionDefinition>) -> (r: Result<(Node, usize), usize>)
    requires
        cs@ == s@,
        i <= cs@.len(),
    ensures
        match r {
            Ok((n, j)) => i < j <= cs@.len() && n.rule == Rule::FunctionDefinition && n.text@
                == cs@.subrange(i as int, j as int) && function_layout(n),
            Err(_) => true,
        },
        wf_function(want) && text_at(cs@, i as int, function_text(want)) ==> r is Ok
            && r->Ok_0.1 == i + function_text(want).len() && function_error(r->Ok_0.0) is None
            && builds_function(r->Ok_0.0, want),
    decreases cs@.len() - i, 1nat,
{
    let ghost complete = wf_function(want) && text_at(cs@, i as int, function_text(want));
    let ghost a1 = i + 9 + want.name.identifier@.len();
    let ghost a2 = a1 + 1;
    let ghost a3 = a2 + list_text(want.parameters@).len();
    let ghost a4 = a3 + 1;
    let ghost a5 = a4 + (if want.returns@.len() == 0 {
        0
    } else {
        4 + list_text(want.returns@).len()
    });
    let ghost a6 = a5 + 1;
    let ghost a7 = a6 + block_text(want.block).len();
    proof {
        reveal_strlit("function ");
        if complete {
            lemma_function_pieces(cs@, i as int, want, a1, a2, a3, a4, a5, a6, a7);
        }
    }
    let p0 = match eat(cs, i, "function ") {
        Some(p) => p,
        None => {
            return Err(i);
        },
    };
    let j1 = scan_identifier(cs, p0);
    proof {
        if complete {
            lemma_scan_exact(cs@, p0 as int, want.name.identifier@.len() as int, j1 as int);
        }
    }
    if j1 == p0 {
        return Err(p0);
    }
    let name = leaf(s, Rule::Identifier, p0, j1);
    proof {
        lemma_scanned_identifier(cs@, p0 as int, j1 as int);
    }
    let p1 = match eat(cs, j1, "(") {
        Some(p) => p,
        None => {
            return Err(j1);
        },
    };
    proof {
        reveal_strlit("(");
        reveal_strlit(")");
        reveal_strlit(" -> ");
        reveal_strlit(" ");
    }
    let mut children: Vec<Node> = vec![name];
    let mut after_params = p1;
    if eat(cs, p1, ")").is_none() {
        match parse_list_at(s, cs, p1, Rule::TypedParameterList, Ghost(want.parameters@)) {
            Ok((list, q)) => {
                children.push(list);
                after_params = q;
            },
            Err(p) => {
                return Err(p);
            },
        }
    }
    let ghost has_p = children@.len() == 2;
    let p2 = match eat(cs, after_params, ")") {
        Some(p) => p,
        None => {
            return Err(after_params);
        },
    };
    let mut after_returns = p2;
    match eat(cs, p2, " -> ") {
        Some(q) => match parse_list_at(s, cs, q, Rule::TypedIdentifierList, Ghost(want.returns@)) {
            Ok((list, e)) => {
                proof {
                    assert(cs@.subrange(p2 as int, e as int) =~= cs@.subrange(p2 as int, q as int)
                        + cs@.subrange(q as int, e as int));
                }
                children.push(list);
                after_returns = e;
            },
            Err(p) => {
                return Err(p);
            },
        },
        None => {},
    }
    let ghost r_at: int = if has_p {
        2
    } else {
        1
    };
    let ghost has_r = children@.len() == r_at + 1;
    let p3 = match eat(cs, after_returns, " ") {
        Some(p) => p,
        None => {
            return Err(after_returns);
        },
    };
    let (body, end) = match parse_block_at(s, cs, p3, Ghost(want.block)) {
        Ok(x) => x,
        Err(p) => {
            return Err(p);
        },
    };
    children.push(body);
    proof {
        let c = children@;
        assert(has_p == (c.len() > 1 && c[1].rule == Rule::TypedParameterList));
        assert(has_r == (c.len() > r_at && c[r_at].rule == Rule::TypedIdentifierList));
        let params = if has_p {
            c[1].text@
        } else {
            Seq::empty()
        };
        let rets = if has_r {
            " -> "@ + c[r_at].text@
        } else {
            Seq::empty()
        };
        assert(cs@.subrange(p1 as int, after_params as int) =~= params);
        assert(cs@.subrange(p2 as int, after_returns as int) =~= rets);
        assert(cs@.subrange(i as int, end as int) =~= cs@.subrange(i as int, p0 as int)
            + cs@.subrange(p0 as int, j1 as int) + cs@.subrange(j1 as int, p1 as int)
            + cs@.subrange(p1 as int, after_params as int) + cs@.subrange(
            after_params as int,
            p2 as int,
        ) + cs@.subrange(p2 as int, after_returns as int) + cs@.subrange(
            after_returns as int,
            p3 as int,
        ) + cs@.subrange(p3 as int, end as int));
    }
    let n = Node { rule: Rule::FunctionDefinition, text: span(s, i, end), children };
    proof {
        if complete {
            assert(has_parameters(n) == has_p);
            assert(returns_at(n) == r_at);
            assert(has_returns(n) == has_r);
            assert(body_at(n) == children@.len() - 1);
            assert(n.children@[0].text@ == want.name.identifier@);
            assert(has_p == (want.parameters@.len() > 0));
            assert(has_r == (want.returns@.len() > 0));
            assert(builds_function(n, want));
        }
    }
    Ok((n, end))
}

proof fn lemma_statements_text_prefix(b: Block, k: nat, m: nat)
    requires
        k <= m <= b.statements@.len(),
    ensures
        statements_text(b, k).len() <= statements_text(b, m).len(),
        statements_text(b, m).subrange(0, statements_text(b, k).len() as int) == statements_text(
            b,
            k,
        ),
    decreases m,
{
    let t = statements_text(b, m);
    if k < m {
        lemma_statements_text_prefix(b, k, (m - 1) as nat);
        let u = statements_text(b, (m - 1) as nat);
        let v = statements_text(b, k);
        assert(t.subrange(0, u.len() as int) =~= u);
        assert(t.subrange(0, v.len() as int) =~= u.subrange(0, v.len() as int));
    } else {
        assert(t.subrange(0, t.len() as int) =~= t);
    }
}

proof fn lemma_wf_statements_at(b: Block, k: nat, j: int)
    requires
        k <= b.statements@.len(),
        0 <= j < k,
        wf_statements(b, k),
    ensures
        wf_statement(b.statements@[j]),
    decreases k,
{
    if j < k - 1 {
        lemma_wf_statements_at(b, (k - 1) as nat, j);
    }
}

/// A statement text begins with `function ` or is `break`.
proof fn lemma_statement_text_start(st: Statement)
    ensures
        st is Break ==> statement_text(st) == "break"@,
        st is FunctionDefinition ==> statement_text(st).len() >= 9 && statement_text(st).subrange(
            0,
            9,
        ) == "function "@,
        statement_text(st).len() >= 1,
        statement_text(st)[0] == 'f' || statement_text(st)[0] == 'b',
{
    reveal_strlit("function ");
    reveal_strlit("break");
    if st is FunctionDefinition {
        let t = statement_text(st);
        assert(t.subrange(0, 9) =~= "function "@);
        assert(t[0] == t.subrange(0, 9)[0]);
    }
}

/// After the first `k + 1` statements of a block text at `i` comes a space.
#[verifier::rlimit(60)]
proof fn lemma_block_follow(cs: Seq<char>, i: int, b: Block, k: int)
    requires
        0 <= i,
        text_at(cs, i, block_text(b)),
        0 <= k < b.statements@.len(),
    ensures
        i + 1 + statements_text(b, (k + 1) as nat).len() < cs.len(),
        cs[i + 1 + statements_text(b, (k + 1) as nat).len()] == ' ',
{
    reveal_strlit("{");
    reveal_strlit(" }");
    reveal_strlit(" ");
    let len = b.statements@.len();
    let t = block_text(b);
    let all = statements_text(b, len);
    let al: int = all.len() as int;
    assert(t == "{"@ + all + " }"@);
    let v = statements_text(b, (k + 1) as nat);
    let vl: int = v.len() as int;
    lemma_statements_text_prefix(b, (k + 1) as nat, len);
    if k + 1 < len {
        lemma_statements_text_prefix(b, (k + 2) as nat, len);
        let x = statements_text(b, (k + 2) as nat);
        let xl: int = x.len() as int;
        assert(x[vl] == ' ');
        lemma_text_at_piece(cs, i, t, 1, 1 + xl);
        assert(t.subrange(1, 1 + xl) =~= x);
        assert(cs.subrange(i + 1, i + 1 + xl)[vl] == cs[i + 1 + vl]);
    } else {
        lemma_text_at_piece(cs, i, t, 1 + al, t.len() as int);
        assert(t.subrange(1 + al, t.len() as int) =~= " }"@);
        assert(cs.subrange(i + 1 + al, i + t.len())[0] == cs[i + 1 + al]);
    }
}

/// What stands after the first `k` statements of a block text, at `pos`:
/// a space and the next statement, or, after the last one, ` }`.
#[verifier::rlimit(60)]
proof fn lemma_block_step(cs: Seq<char>, i: int, b: Block, k: int, pos: int)
    requires
        0 <= i,
        wf_block(b),
        text_at(cs, i, block_text(b)),
        0 <= k <= b.statements@.len(),
        pos == i + 1 + statements_text(b, k as nat).len(),
    ensures
        k < b.statements@.len() ==> {
            let w = statement_text(b.statements@[k]);
            &&& text_at(cs, pos, " "@)
            &&& !text_at(cs, pos, " }"@)
            &&& text_at(cs, pos + 1, w)
            &&& wf_statement(b.statements@[k])
            &&& pos + 1 + w.len() == i + 1 + statements_text(b, (k + 1) as nat).len()
            &&& pos + 1 + w.len() < cs.len()
            &&& cs[pos + 1 + w.len()] == ' '
        },
        k == b.statements@.len() ==> text_at(cs, pos, " }"@) && pos + 2 == i + block_text(
            b,
        ).len(),
{
    reveal_strlit("{");
    reveal_strlit(" }");
    reveal_strlit(" ");
    let len = b.statements@.len();
    let t = block_text(b);
    let all = statements_text(b, len);
    let al: int = all.len() as int;
    assert(t == "{"@ + all + " }"@);
    lemma_statements_text_prefix(b, k as nat, len);
    let u = statements_text(b, k as nat);
    let ul: int = u.len() as int;
    if k < len {
        lemma_statements_text_prefix(b, (k + 1) as nat, len);
        let v = statements_text(b, (k + 1) as nat);
        let vl: int = v.len() as int;
        let w = statement_text(b.statements@[k]);
        assert(v == u + " "@ + w);
        lemma_wf_statements_at(b, len, k);
        lemma_statement_text_start(b.statements@[k]);
        lemma_text_at_piece(cs, i, t, 1, 1 + vl);
        assert(t.subrange(1, 1 + vl) =~= v);
        lemma_text_at_piece(cs, i + 1, v, ul, ul + 1);
        assert(v.subrange(ul, ul + 1) =~= " "@);
        lemma_text_at_piece(cs, i + 1, v, ul + 1, vl);
        assert(v.subrange(ul + 1, vl) =~= w);
        assert(!text_at(cs, pos, " }"@)) by {
            assert(cs.subrange(pos + 1, pos + 1 + w.len())[0] == cs[pos + 1]);
            if pos + 2 <= cs.len() {
                assert(cs.subrange(pos, pos + 2)[1] == cs[pos + 1]);
            }
        }
        lemma_block_follow(cs, i, b, k);
    } else {
        lemma_text_at_piece(cs, i, t, 1 + al, t.len() as int);
        assert(t.subrange(1 + al, t.len() as int) =~= " }"@);
    }
}

/// Reads a statement at `i`: a function definition, `break` or `continue`,
/// or a nested block.
fn parse_statement_at(s: &str, cs: &Vec<char>, i: usize, Ghost(want): Ghost<Statement>) -> (r: Result<(Node, usize), usize>)
    requires
        cs@ == s@,
        i <= cs@.len(),
    ensures
        match r {
            Ok((n, j)) => i < j <= cs@.len() && n.rule == Rule::Statement && n.text@
                == cs@.subrange(i as int, j as int) && statement_layout(n),
            Err(_) => true,
        },
        wf_statement(want) && text_at(cs@, i as int, statement_text(want)) && i
            + statement_text(want).len() < cs@.len() && cs@[i + statement_text(want).len()] == ' '
            ==> r is Ok && r->Ok_0.1 == i + statement_text(want).len() && statement_error(
            r->Ok_0.0,
        ) is None && builds_statement(r->Ok_0.0, want),
    decreases cs@.len() - i, 2nat,
{
    let ghost complete = wf_statement(want) && text_at(cs@, i as int, statement_text(want)) && i
        + statement_text(want).len() < cs@.len() && cs@[i + statement_text(want).len()] == ' ';
    let ghost f = if want is FunctionDefinition {
        want->FunctionDefinition_0
    } else {
        arbitrary()
    };
    proof {
        reveal_strlit("function ");
        reveal_strlit("{");
        reveal_strlit("break");
        if complete {
            lemma_statement_text_start(want);
            let t = statement_text(want);
            lemma_text_at_piece(cs@, i as int, t, 0, 1);
            assert(cs@.subrange(i as int, i + 1)[0] == cs@[i as int]);
            assert(t.subrange(0, 1)[0] == t[0]);
            if want is FunctionDefinition {
                lemma_text_at_piece(cs@, i as int, t, 0, 9);
            } else {
                assert(!text_at(cs@, i as int, "function "@)) by {
                    if i + 9 <= cs@.len() {
                        assert(cs@.subrange(i as int, i + 9)[0] == cs@[i as int]);
                    }
                }
            }
            assert(!text_at(cs@, i as int, "{"@)) by {
                assert(cs@.subrange(i as int, i + 1)[0] == cs@[i as int]);
            }
        }
    }
    let j = scan_identifier(cs, i);
    proof {
        if complete && want is Break {
            assert("break"@[0] == 'b' && "break"@[1] == 'r' && "break"@[2] == 'e' && "break"@[3] == 'a' && "break"@[4] == 'k');
            assert(is_identifier("break"@));
            lemma_scan_exact(cs@, i as int, 5, j as int);
        }
    }
    let inner = if eat(cs, i, "function ").is_some() {
        parse_function_at(s, cs, i, Ghost(f))
    } else if eat(cs, i, "{").is_some() {
        parse_block_at(s, cs, i, Ghost(arbitrary()))
    } else {
        if j > i && (eat(cs, i, "break") == Some(j) || eat(cs, i, "continue") == Some(j)) {
            let c = leaf(s, Rule::BreakContinue, i, j);
            proof {
                reveal_strlit("continue");
            }
            Ok((c, j))
        } else {
            Err(i)
        }
    };
    match inner {
        Ok((c, j)) => {
            let text = span(s, i, j);
            let children = vec![c];
            Ok((Node { rule: Rule::Statement, text, children }, j))
        },
        Err(p) => Err(p),
    }
}

proof fn lemma_block_items_error_push(cs: Seq<Node>, c: Node, k: nat)
    requires
        k <= cs.len(),
    ensures
        block_items_error(cs.push(c), k) == block_items_error(cs, k),
    decreases k,
{
    if k > 0 {
        lemma_block_items_error_push(cs, c, (k - 1) as nat);
    }
}

/// Reads `{`, statements each after a space, and ` }` at `i`.
fn parse_block_at(s: &str, cs: &Vec<char>, i: usize, Ghost(want): Ghost<Block>) -> (r: Result<(Node, usize), usize>)
    requires
        cs@ == s@,
        i <= cs@.len(),
    ensures
        match r {
            Ok((n, j)) => i < j <= cs@.len() && n.rule == Rule::Block && n.text@ == cs@.subrange(
                i as int,
                j as int,
            ) && block_layout(n),
            Err(_) => true,
        },
        wf_block(want) && text_at(cs@, i as int, block_text(want)) ==> r is Ok && r->Ok_0.1 == i
            + block_text(want).len() && block_error(r->Ok_0.0) is None && builds_block(
            r->Ok_0.0,
            want,
        ),
    decreases cs@.len() - i, 0nat,
{
    proof {
        reveal_strlit("{");
        reveal_strlit(" ");
        reveal_strlit(" }");
    }
    let ghost complete = wf_block(want) && text_at(cs@, i as int, block_text(want));
    proof {
        if complete {
            lemma_text_at_piece(cs@, i as int, block_text(want), 0, 1);
            assert(block_text(want).subrange(0, 1) =~= "{"@);
        }
    }
    let p = match eat(cs, i, "{") {
        Some(p) => p,
        None => {
            return Err(i);
        },
    };
    let mut children: Vec<Node> = Vec::new();
    let mut pos = p;
    loop
        invariant
            i < pos <= cs@.len(),
            cs@ == s@,
            complete == (wf_block(want) && text_at(cs@, i as int, block_text(want))),
            " "@.len() == 1,
            " }"@.len() == 2,
            cs@.subrange(i as int, pos as int) == "{"@ + items_text(children@, children@.len()),
            items_layout(children@, children@.len()),
            complete ==> children@.len() <= want.statements@.len() && pos == i + 1
                + statements_text(want, children@.len()).len() && block_items_error(
                children@,
                children@.len(),
            ) is None && builds_statements(children@, want.statements@, children@.len()),
        decreases cs@.len() - pos,
    {
        let ghost k: int = children@.len() as int;
        proof {
            if complete {
                lemma_block_step(cs@, i as int, want, k, pos as int);
            }
        }
        match eat(cs, pos, " }") {
            Some(end) => {
                assert(cs@.subrange(i as int, end as int) =~= cs@.subrange(i as int, pos as int)
                    + cs@.subrange(pos as int, end as int));
                let n = Node { rule: Rule::Block, text: span(s, i, end), children };
                return Ok((n, end));
            },
            None => {},
        }
        let q = match eat(cs, pos, " ") {
            Some(q) => q,
            None => {
                return Err(pos);
            },
        };
        let ghost next = if k < want.statements@.len() {
            want.statements@[k]
        } else {
            arbitrary()
        };
        match parse_statement_at(s, cs, q, Ghost(next)) {
            Ok((c, e)) => {
                let ghost before = children@;
                proof {
                    lemma_items_push(before, c, before.len());
                    lemma_block_items_error_push(before, c, before.len());
                    assert(cs@.subrange(i as int, e as int) =~= cs@.subrange(i as int, pos as int)
                        + cs@.subrange(pos as int, q as int) + cs@.subrange(q as int, e as int));
                }
                children.push(c);
                proof {
                    if complete {
                        lemma_builds_statements_prefix(
                            before,
                            children@,
                            want.statements@,
                            want.statements@,
                            before.len(),
                        );
                        assert(builds_statements(children@, want.statements@, (k + 1) as nat));
                        assert(block_item_error(c) == statement_error(c));
                        assert(block_items_error(children@, (k + 1) as nat) == block_item_error(c));
                    }
                }
                pos = e;
            },
            Err(p) => {
                return Err(p);
            },
        }
    }
}

/// The characters of `s`, in order.
fn chars_of(s: &str) -> (r: Vec<char>)
    ensures
        r@ == s@,
{
    let n = s.unicode_len();
    let mut r: Vec<char> = Vec::new();
    let mut i: usize = 0;
    while i < n
        invariant
            i <= n,
            n == s@.len(),
            r@ == s@.take(i as int),
        decreases n - i,
    {
        r.push(s.get_char(i));
        assert(r@ =~= s@.take(i + 1));
        i = i + 1;
    }
    assert(r@ =~= s@);
    r
}

/// Reads a whole text as a block, into a parse tree whose layout is
/// canonical and whose text is the whole input. The text of every
/// well-formed block is read, into a tree that builds without error.
pub fn parse_tree(source: &str) -> (r: Result<Node, ParseError>)
    ensures
        match r {
            Ok(n) => n.rule == Rule::Block && n.text@ == source@ && block_layout(n),
            Err(e) => e is GrammarMismatch,
        },
        (exists|b: Block| wf_block(b) && #[trigger] block_text(b) == source@) ==> r is Ok
            && block_error(r->Ok_0) is None && builds_block(
            r->Ok_0,
            choose|b: Block| wf_block(b) && #[trigger] block_text(b) == source@,
        ),
{
    let cs = chars_of(source);
    let ghost want = if exists|b: Block| wf_block(b) && #[trigger] block_text(b) == source@ {
        choose|b: Block| wf_block(b) && #[trigger] block_text(b) == source@
    } else {
        arbitrary()
    };
    proof {
        if exists|b: Block| wf_block(b) && #[trigger] block_text(b) == source@ {
            assert(cs@.subrange(0, block_text(want).len() as int) =~= cs@);
        }
    }
    match parse_block_at(source, &cs, 0, Ghost(want)) {
        Ok((n, j)) => {
            if j == cs.len() {
                assert(cs@.subrange(0, j as int) =~= cs@);
                Ok(n)
            } else {
                Err(ParseError::GrammarMismatch(j))
            }
        },
        Err(p) => Err(ParseError::GrammarMismatch(p)),
    }
}

} // verus!
