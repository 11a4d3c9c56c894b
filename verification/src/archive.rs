//! Storing a definition as bytes.
//!
//! A definition is laid out as a frame of plain values: its names and its
//! start event, one row for each task, one row for each flow, and the
//! identifiers.  The condition of a flow is flattened into tokens.  The frame
//! is then archived as bytes, and read back the other way.

use vstd::prelude::*;
use crate::codec::copy_list;
use crate::codec::fits_archive;
use crate::codec::list_weight;
use crate::codec::text_weight;
use crate::codec::tokens_weight;
use crate::codec::weigh_list;
use crate::codec::weigh_more;
use crate::codec::weigh_text;
use crate::codec::weigh_tokens;
use crate::codec::ARCHIVE_LIMIT;
use crate::codec::BASE_WEIGHT;
use crate::codec::flatten;
use crate::codec::ARCHIVE_MARGIN;
use crate::codec::parse_value;
use crate::codec::reads_as;
use crate::codec::stands_at;
use crate::codec::tokens_of;
use crate::codec::tokens_view;
use crate::codec::CodecError;
use crate::codec::Token;
use crate::codec::TokenView;
use crate::jsep::BinaryExpression;
use crate::jsep::ConditionalExpression;
use crate::jsep::ExpressionIdentifier;
use crate::jsep::ExpressionLiteral;
use crate::jsep::JsepNode;
use crate::jsep::MemberExpression;
use crate::jsep::NodeModel;
use crate::jsep::Operator;
use crate::model::lemma_flat_view;
use crate::model::lemma_view_shape;
use crate::model::ConditionExpression;
use crate::model::DefinitionView;
use crate::model::EndEventDef;
use crate::model::ExclusiveGatewayDef;
use crate::model::Flow;
use crate::model::FlowView;
use crate::model::StartEventDef;
use crate::model::Task;
use crate::model::TaskDef;
use crate::model::TaskDefView;
use crate::model::TaskView;
use crate::model::UserTaskDef;
use crate::model::WorkflowDefinition;
use crate::model::WorkflowProperties;

verus! {

pub const KIND_CONDITIONAL: u8 = 10;

pub const KIND_BINARY: u8 = 11;

pub const KIND_IDENTIFIER: u8 = 12;

pub const KIND_LITERAL: u8 = 13;

pub const KIND_MEMBER: u8 = 14;

/// The number that stands for an operator.
pub open spec fn operator_code(op: Operator) -> u64 {
    match op {
        Operator::Equal => 0,
        Operator::NotEqual => 1,
        Operator::Greater => 2,
        Operator::GreaterOrEqual => 3,
        Operator::Lower => 4,
        Operator::LowerOrEqual => 5,
        Operator::And => 6,
        Operator::Or => 7,
    }
}

/// The number that stands for the two marks of a member expression.
pub open spec fn member_flags(computed: bool, optional: bool) -> u64 {
    if computed {
        if optional { 3 } else { 1 }
    } else {
        if optional { 2 } else { 0 }
    }
}

/// The token that opens an expression.
pub open spec fn node_header(n: NodeModel) -> TokenView {
    match n {
        NodeModel::Conditional(_, _, _) => (KIND_CONDITIONAL, 0u64, Seq::empty()),
        NodeModel::Binary(op, _, _) => (KIND_BINARY, operator_code(op), Seq::empty()),
        NodeModel::Identifier(name) => (KIND_IDENTIFIER, 0u64, name),
        NodeModel::Literal(_) => (KIND_LITERAL, 0u64, Seq::empty()),
        NodeModel::Member(computed, optional, _, _) => (
            KIND_MEMBER,
            member_flags(computed, optional),
            Seq::empty(),
        ),
    }
}

/// An expression flattened: its header, then its parts in order, each
/// flattened in the same way; a literal is followed by its value, flattened.
pub open spec fn node_tokens(n: NodeModel) -> Seq<TokenView>
    decreases n,
{
    match n {
        NodeModel::Conditional(test, consequent, alternate) => seq![node_header(n)] + node_tokens(
            *test,
        ) + node_tokens(*consequent) + node_tokens(*alternate),
        NodeModel::Binary(_, left, right) => seq![node_header(n)] + node_tokens(*left)
            + node_tokens(*right),
        NodeModel::Identifier(_) => seq![node_header(n)],
        NodeModel::Literal(value) => seq![node_header(n)] + tokens_of(value),
        NodeModel::Member(_, _, object, property) => seq![node_header(n)] + node_tokens(*object)
            + node_tokens(*property),
    }
}

/// What stands at `pos` is what the expression `w` flattens to.
pub open spec fn node_reads_as(tokens: Seq<Token>, pos: int, w: JsepNode) -> bool {
    stands_at(tokens_view(tokens), pos, node_tokens(w@))
}

/// A flattened expression opens with its header.
pub proof fn lemma_node_head(n: NodeModel)
    ensures
        node_tokens(n).len() >= 1,
        node_tokens(n)[0] == node_header(n),
{
}

/// Where two runs stand one after the other, each stands in its place.
pub proof fn lemma_stands_split(
    tokens: Seq<TokenView>,
    at: int,
    first: Seq<TokenView>,
    second: Seq<TokenView>,
)
    requires
        stands_at(tokens, at, first + second),
    ensures
        stands_at(tokens, at, first),
        stands_at(tokens, at + first.len(), second),
{
    let whole = first + second;
    assert(tokens.subrange(at, at + first.len()) =~= first) by {
        assert forall|k: int| 0 <= k < first.len() implies tokens[at + k] == first[k] by {
            assert(tokens.subrange(at, at + whole.len())[k] == whole[k]);
        }
    }
    assert(tokens.subrange(at + first.len(), at + first.len() + second.len()) =~= second) by {
        assert forall|k: int| 0 <= k < second.len() implies tokens[at + first.len() + k]
            == second[k] by {
            assert(tokens.subrange(at, at + whole.len())[first.len() + k] == whole[first.len()
                + k]);
        }
    }
}

/// Two runs that stand one after the other stand together.
pub proof fn lemma_stands_join(tokens: Seq<TokenView>, at: int, mid: int, end: int)
    requires
        0 <= at <= mid <= end <= tokens.len(),
    ensures
        tokens.subrange(at, end) == tokens.subrange(at, mid) + tokens.subrange(mid, end),
{
    assert(tokens.subrange(at, end) =~= tokens.subrange(at, mid) + tokens.subrange(mid, end));
}

/// The number of an operator.
pub fn code_of_operator(op: &Operator) -> (code: u64)
    ensures
        code == operator_code(*op),
{
    match op {
        Operator::Equal => 0,
        Operator::NotEqual => 1,
        Operator::Greater => 2,
        Operator::GreaterOrEqual => 3,
        Operator::Lower => 4,
        Operator::LowerOrEqual => 5,
        Operator::And => 6,
        Operator::Or => 7,
    }
}

/// The operator of a number.
pub fn operator_of_code(code: u64) -> (r: Option<Operator>)
    ensures
        match r {
            Some(op) => operator_code(op) == code,
            None => forall|op: Operator| operator_code(op) != code,
        },
{
    if code == 0 {
        Some(Operator::Equal)
    } else if code == 1 {
        Some(Operator::NotEqual)
    } else if code == 2 {
        Some(Operator::Greater)
    } else if code == 3 {
        Some(Operator::GreaterOrEqual)
    } else if code == 4 {
        Some(Operator::Lower)
    } else if code == 5 {
        Some(Operator::LowerOrEqual)
    } else if code == 6 {
        Some(Operator::And)
    } else if code == 7 {
        Some(Operator::Or)
    } else {
        None
    }
}

fn push_header(out: &mut Vec<Token>, kind: u8, number: u64, text: String)
    ensures
        tokens_view(final(out)@) == tokens_view(old(out)@) + seq![(kind, number, text@)],
{
    out.push((kind, number, text));
    assert(tokens_view(out@) =~= tokens_view(old(out)@) + seq![(kind, number, text@)]);
}

/// Flattens an expression, adding its tokens to `out`.
pub fn flatten_node(node: &JsepNode, out: &mut Vec<Token>)
    ensures
        tokens_view(final(out)@) == tokens_view(old(out)@) + node_tokens(node@),
    decreases *node,
{
    let ghost before = tokens_view(out@);
    match node {
        JsepNode::ConditionalExpression(n) => {
            push_header(out, KIND_CONDITIONAL, 0, String::new());
            flatten_node(&*n.test, out);
            flatten_node(&*n.consequent, out);
            flatten_node(&*n.alternate, out);
            assert(tokens_view(out@) =~= before + node_tokens(node@));
        },
        JsepNode::BinaryExpression(n) => {
            push_header(out, KIND_BINARY, code_of_operator(&n.operator), String::new());
            flatten_node(&*n.left, out);
            flatten_node(&*n.right, out);
            assert(tokens_view(out@) =~= before + node_tokens(node@));
        },
        JsepNode::Identifier(n) => {
            push_header(out, KIND_IDENTIFIER, 0, n.name.clone());
            assert(tokens_view(out@) =~= before + node_tokens(node@));
        },
        JsepNode::Literal(n) => {
            push_header(out, KIND_LITERAL, 0, String::new());
            flatten(&n.value, out);
            assert(tokens_view(out@) =~= before + node_tokens(node@));
        },
        JsepNode::MemberExpression(n) => {
            let flags: u64 = if n.computed {
                if n.optional { 3 } else { 1 }
            } else {
                if n.optional { 2 } else { 0 }
            };
            push_header(out, KIND_MEMBER, flags, String::new());
            flatten_node(&*n.object, out);
            flatten_node(&*n.property, out);
            assert(tokens_view(out@) =~= before + node_tokens(node@));
        },
    }
}

/// What an expression with a given header and parts flattens to, where each
/// part is an expression.
pub open spec fn with_parts(head: TokenView, parts: Seq<NodeModel>, n: nat) -> Seq<TokenView>
    decreases n,
{
    if n == 0 || n > parts.len() {
        seq![head]
    } else {
        with_parts(head, parts, (n - 1) as nat) + node_tokens(parts[n - 1])
    }
}

/// The parts of an expression that has expressions for parts.
pub open spec fn parts_of(n: NodeModel) -> Seq<NodeModel> {
    match n {
        NodeModel::Conditional(test, consequent, alternate) => seq![*test, *consequent, *alternate],
        NodeModel::Binary(_, left, right) => seq![*left, *right],
        NodeModel::Member(_, _, object, property) => seq![*object, *property],
        _ => Seq::empty(),
    }
}

/// An expression flattens to its header and then its parts.
pub proof fn lemma_node_parts(n: NodeModel)
    requires
        !(n is Literal),
    ensures
        node_tokens(n) == with_parts(node_header(n), parts_of(n), parts_of(n).len()),
{
    reveal_with_fuel(with_parts, 4);
    assert(node_tokens(n) =~= with_parts(node_header(n), parts_of(n), parts_of(n).len()));
}

/// Where an expression stands, each of its parts stands after the parts
/// before it.
pub proof fn lemma_part_stands(
    tokens: Seq<TokenView>,
    at: int,
    head: TokenView,
    parts: Seq<NodeModel>,
    i: nat,
)
    requires
        stands_at(tokens, at, with_parts(head, parts, parts.len())),
        i < parts.len(),
    ensures
        stands_at(tokens, at + with_parts(head, parts, i).len(), node_tokens(parts[i as int])),
        with_parts(head, parts, i + 1) == with_parts(head, parts, i) + node_tokens(parts[i as int]),
        stands_at(tokens, at, with_parts(head, parts, i + 1)),
{
    lemma_part_prefix(tokens, at, head, parts, i + 1, parts.len());
    reveal_with_fuel(with_parts, 2);
    lemma_stands_split(tokens, at, with_parts(head, parts, i), node_tokens(parts[i as int]));
}

proof fn lemma_part_prefix(
    tokens: Seq<TokenView>,
    at: int,
    head: TokenView,
    parts: Seq<NodeModel>,
    n: nat,
    m: nat,
)
    requires
        stands_at(tokens, at, with_parts(head, parts, m)),
        n <= m <= parts.len(),
    ensures
        stands_at(tokens, at, with_parts(head, parts, n)),
    decreases m - n,
{
    if n < m {
        reveal_with_fuel(with_parts, 2);
        lemma_stands_split(
            tokens,
            at,
            with_parts(head, parts, (m - 1) as nat),
            node_tokens(parts[m - 1]),
        );
        lemma_part_prefix(tokens, at, head, parts, n, (m - 1) as nat);
    }
}

/// What the expressions of a list are.
pub open spec fn node_models(nodes: Seq<JsepNode>) -> Seq<NodeModel> {
    Seq::new(nodes.len(), |j: int| nodes[j]@)
}

/// What an expression flattens to up to its part `n` depends on the parts
/// before `n` alone.
pub proof fn lemma_parts_agree(head: TokenView, a: Seq<NodeModel>, b: Seq<NodeModel>, n: nat)
    requires
        n <= a.len(),
        n <= b.len(),
        forall|j: int| 0 <= j < n ==> a[j] == b[j],
    ensures
        with_parts(head, a, n) == with_parts(head, b, n),
    decreases n,
{
    reveal_with_fuel(with_parts, 2);
    if n > 0 {
        lemma_parts_agree(head, a, b, (n - 1) as nat);
    }
}

/// `parts`, each an expression, stand at `pos` behind the header that
/// stands there.
pub open spec fn parts_read_as(tokens: Seq<Token>, pos: int, parts: Seq<JsepNode>) -> bool {
    0 <= pos < tokens.len() && stands_at(
        tokens_view(tokens),
        pos,
        with_parts(tokens_view(tokens)[pos], node_models(parts), parts.len()),
    )
}

/// Reads `count` expressions that stand one after the other behind the
/// header at `pos`.
fn parse_parts(tokens: &Vec<Token>, pos: usize, count: usize) -> (r: Option<(Vec<JsepNode>, usize)>)
    requires
        pos < tokens@.len(),
    ensures
        r matches Some((parts, next)) ==> parts@.len() == count && pos < next <= tokens@.len()
            && tokens_view(tokens@).subrange(pos as int, next as int) == with_parts(
            tokens_view(tokens@)[pos as int],
            node_models(parts@),
            count as nat,
        ),
        forall|ws: Seq<JsepNode>|
            ws.len() == count && #[trigger] parts_read_as(tokens@, pos as int, ws) ==> (
            r matches Some((parts, next)) && forall|j: int|
                0 <= j < count ==> (#[trigger] parts@[j])@ == ws[j]@),
    decreases tokens@.len() - pos, 0nat,
{
    let ghost tv = tokens_view(tokens@);
    let ghost head = tv[pos as int];
    let mut parts: Vec<JsepNode> = Vec::new();
    let total = tokens.len();
    let mut p: usize = pos + 1;
    let mut i: usize = 0;
    proof {
        assert(tv.subrange(pos as int, p as int) =~= seq![head]);
    }
    while i < count
        invariant
            tv == tokens_view(tokens@),
            head == tv[pos as int],
            pos < p <= tokens@.len(),
            i <= count,
            parts@.len() == i,
            tv.subrange(pos as int, p as int) == with_parts(head, node_models(parts@), i as nat),
            forall|ws: Seq<JsepNode>|
                ws.len() == count && #[trigger] parts_read_as(tokens@, pos as int, ws) ==> p == pos
                    + with_parts(head, node_models(ws), i as nat).len() && forall|j: int|
                    0 <= j < i ==> (#[trigger] parts@[j])@ == ws[j]@,
        decreases count - i,
    {
        let ghost old_parts = parts@;
        let ghost old_p = p;
        match parse_node(tokens, p) {
            Some((node, next)) => {
                parts.push(node);
                proof {
                    let a = node_models(old_parts);
                    let b = node_models(parts@);
                    lemma_parts_agree(head, a, b, i as nat);
                    reveal_with_fuel(with_parts, 2);
                    lemma_stands_join(tv, pos as int, old_p as int, next as int);
                    assert forall|ws: Seq<JsepNode>|
                        ws.len() == count && #[trigger] parts_read_as(
                            tokens@,
                            pos as int,
                            ws,
                        ) implies next == pos + with_parts(
                        head,
                        node_models(ws),
                        (i + 1) as nat,
                    ).len() && forall|j: int| 0 <= j < i + 1 ==> (#[trigger] parts@[j])@ == ws[j]@ by {
                        lemma_part_stands(tv, pos as int, head, node_models(ws), i as nat);
                        assert(node_reads_as(tokens@, old_p as int, ws[i as int]));
                        assert(node@ == ws[i as int]@);
                        assert(tv.subrange(old_p as int, next as int).len() == node_tokens(
                            ws[i as int]@,
                        ).len());
                    }
                }
                p = next;
                i = i + 1;
            },
            None => {
                proof {
                    assert forall|ws: Seq<JsepNode>|
                        !(ws.len() == count && #[trigger] parts_read_as(tokens@, pos as int, ws)) by {
                        if ws.len() == count && parts_read_as(tokens@, pos as int, ws) {
                            lemma_part_stands(tv, pos as int, head, node_models(ws), i as nat);
                            assert(node_reads_as(tokens@, old_p as int, ws[i as int]));
                        }
                    }
                }
                return None;
            },
        }
    }
    Some((parts, p))
}

/// Reads the expression that stands at `pos`, and tells where it ends.  An
/// expression is read exactly where the tokens from `pos` on open with what
/// some expression flattens to; that expression is then the one read.
pub fn parse_node(tokens: &Vec<Token>, pos: usize) -> (r: Option<(JsepNode, usize)>)
    ensures
        r matches Some((node, next)) ==> pos < next <= tokens@.len() && tokens_view(
            tokens@,
        ).subrange(pos as int, next as int) == node_tokens(node@),
        forall|w: JsepNode| #[trigger]
            node_reads_as(tokens@, pos as int, w) ==> (r matches Some((node, next)) && node@
                == w@),
    decreases tokens@.len() - pos, 1nat,
{
    let ghost tv = tokens_view(tokens@);
    if pos >= tokens.len() {
        proof {
            assert forall|w: JsepNode| !(#[trigger] node_reads_as(tokens@, pos as int, w)) by {
                lemma_node_head(w@);
            }
        }
        return None;
    }
    let kind = tokens[pos].0;
    let number = tokens[pos].1;
    let blank = tokens[pos].2.as_str().is_empty();
    proof {
        assert forall|w: JsepNode| #[trigger] node_reads_as(tokens@, pos as int, w) implies node_header(
            w@,
        ) == tv[pos as int] by {
            lemma_node_head(w@);
            assert(tv.subrange(pos as int, pos + node_tokens(w@).len())[0] == node_tokens(w@)[0]);
        }
        assert(tv[pos as int] == (kind, number, tokens@[pos as int].2@));
        if blank {
            assert(tv[pos as int].2 =~= Seq::<char>::empty());
        }
    }
    if kind == KIND_IDENTIFIER && number == 0 {
        let node = JsepNode::Identifier(ExpressionIdentifier { name: tokens[pos].2.clone() });
        proof {
            assert(tv.subrange(pos as int, pos + 1) =~= node_tokens(node@));
        }
        return Some((node, pos + 1));
    }
    if kind == KIND_LITERAL && number == 0 && blank {
        match parse_value(tokens, pos + 1) {
            Some((value, next)) => {
                let node = JsepNode::Literal(ExpressionLiteral { value });
                proof {
                    lemma_stands_join(tv, pos as int, pos + 1, next as int);
                    assert(tv.subrange(pos as int, pos + 1) =~= seq![node_header(node@)]);
                    assert forall|w: JsepNode| #[trigger]
                        node_reads_as(tokens@, pos as int, w) implies node@ == w@ by {
                        let inner = w->Literal_0.value;
                        lemma_stands_split(tv, pos as int, seq![node_header(w@)], tokens_of(inner@));
                        assert(reads_as(tokens@, pos + 1, inner));
                    }
                }
                return Some((node, next));
            },
            None => {
                proof {
                    assert forall|w: JsepNode| !(#[trigger] node_reads_as(tokens@, pos as int, w)) by {
                        if node_reads_as(tokens@, pos as int, w) {
                            let inner = w->Literal_0.value;
                            lemma_stands_split(
                                tv,
                                pos as int,
                                seq![node_header(w@)],
                                tokens_of(inner@),
                            );
                            assert(reads_as(tokens@, pos + 1, inner));
                        }
                    }
                }
                return None;
            },
        }
    }
    if kind == KIND_CONDITIONAL && number == 0 && blank {
        match parse_parts(tokens, pos, 3) {
            Some((parts, next)) => {
                let ghost read = parts@;
                let mut parts = parts;
                let alternate = parts.pop().unwrap();
                let consequent = parts.pop().unwrap();
                let test = parts.pop().unwrap();
                let node = JsepNode::ConditionalExpression(
                    ConditionalExpression {
                        test: Box::new(test),
                        consequent: Box::new(consequent),
                        alternate: Box::new(alternate),
                    },
                );
                proof {
                    lemma_node_parts(node@);
                    assert(parts_of(node@) =~= node_models(read));
                    assert forall|w: JsepNode| #[trigger]
                        node_reads_as(tokens@, pos as int, w) implies node@ == w@ by {
                        let n = w->ConditionalExpression_0;
                        let ws = seq![*n.test, *n.consequent, *n.alternate];
                        lemma_node_parts(w@);
                        assert(parts_of(w@) =~= node_models(ws));
                        assert(parts_read_as(tokens@, pos as int, ws));
                        assert(read[0]@ == ws[0]@);
                        assert(read[1]@ == ws[1]@);
                        assert(read[2]@ == ws[2]@);
                    }
                }
                return Some((node, next));
            },
            None => {
                proof {
                    assert forall|w: JsepNode| !(#[trigger] node_reads_as(tokens@, pos as int, w)) by {
                        if node_reads_as(tokens@, pos as int, w) {
                            let n = w->ConditionalExpression_0;
                            let ws = seq![*n.test, *n.consequent, *n.alternate];
                            lemma_node_parts(w@);
                            assert(parts_of(w@) =~= node_models(ws));
                            assert(parts_read_as(tokens@, pos as int, ws));
                        }
                    }
                }
                return None;
            },
        }
    }
    if kind == KIND_BINARY && blank {
        let operator = match operator_of_code(number) {
            Some(op) => op,
            None => {
                return None;
            },
        };
        match parse_parts(tokens, pos, 2) {
            Some((parts, next)) => {
                let ghost read = parts@;
                let mut parts = parts;
                let right = parts.pop().unwrap();
                let left = parts.pop().unwrap();
                let node = JsepNode::BinaryExpression(
                    BinaryExpression { operator, left: Box::new(left), right: Box::new(right) },
                );
                proof {
                    lemma_node_parts(node@);
                    assert(parts_of(node@) =~= node_models(read));
                    assert forall|w: JsepNode| #[trigger]
                        node_reads_as(tokens@, pos as int, w) implies node@ == w@ by {
                        let n = w->BinaryExpression_0;
                        let ws = seq![*n.left, *n.right];
                        lemma_node_parts(w@);
                        assert(parts_of(w@) =~= node_models(ws));
                        assert(parts_read_as(tokens@, pos as int, ws));
                        assert(read[0]@ == ws[0]@);
                        assert(read[1]@ == ws[1]@);
                    }
                }
                return Some((node, next));
            },
            None => {
                proof {
                    assert forall|w: JsepNode| !(#[trigger] node_reads_as(tokens@, pos as int, w)) by {
                        if node_reads_as(tokens@, pos as int, w) {
                            let n = w->BinaryExpression_0;
                            let ws = seq![*n.left, *n.right];
                            lemma_node_parts(w@);
                            assert(parts_of(w@) =~= node_models(ws));
                            assert(parts_read_as(tokens@, pos as int, ws));
                        }
                    }
                }
                return None;
            },
        }
    }
    if kind == KIND_MEMBER && number <= 3 && blank {
        match parse_parts(tokens, pos, 2) {
            Some((parts, next)) => {
                let ghost read = parts@;
                let mut parts = parts;
                let property = parts.pop().unwrap();
                let object = parts.pop().unwrap();
                let node = JsepNode::MemberExpression(
                    MemberExpression {
                        computed: number == 1 || number == 3,
                        optional: number == 2 || number == 3,
                        object: Box::new(object),
                        property: Box::new(property),
                    },
                );
                proof {
                    lemma_node_parts(node@);
                    assert(parts_of(node@) =~= node_models(read));
                    assert forall|w: JsepNode| #[trigger]
                        node_reads_as(tokens@, pos as int, w) implies node@ == w@ by {
                        let n = w->MemberExpression_0;
                        let ws = seq![*n.object, *n.property];
                        lemma_node_parts(w@);
                        assert(parts_of(w@) =~= node_models(ws));
                        assert(parts_read_as(tokens@, pos as int, ws));
                        assert(read[0]@ == ws[0]@);
                        assert(read[1]@ == ws[1]@);
                    }
                }
                return Some((node, next));
            },
            None => {
                proof {
                    assert forall|w: JsepNode| !(#[trigger] node_reads_as(tokens@, pos as int, w)) by {
                        if node_reads_as(tokens@, pos as int, w) {
                            let n = w->MemberExpression_0;
                            let ws = seq![*n.object, *n.property];
                            lemma_node_parts(w@);
                            assert(parts_of(w@) =~= node_models(ws));
                            assert(parts_read_as(tokens@, pos as int, ws));
                        }
                    }
                }
                return None;
            },
        }
    }
    None
}

/// Flattens an expression.
pub fn flattened_node(node: &JsepNode) -> (tokens: Vec<Token>)
    ensures
        tokens_view(tokens@) == node_tokens(node@),
{
    let mut tokens: Vec<Token> = Vec::new();
    flatten_node(node, &mut tokens);
    assert(tokens_view(tokens@) =~= node_tokens(node@));
    tokens
}

/// Reads the expression that a run of tokens holds: the expression that
/// flattens to exactly these tokens, if there is one.
pub fn unflattened_node(tokens: &Vec<Token>) -> (r: Option<JsepNode>)
    ensures
        r matches Some(node) ==> tokens_view(tokens@) == node_tokens(node@),
        forall|w: JsepNode|
            tokens_view(tokens@) == node_tokens(#[trigger] w@) ==> (r matches Some(node) && node@
                == w@),
{
    let ghost tv = tokens_view(tokens@);
    match parse_node(tokens, 0) {
        Some((node, next)) => {
            if next == tokens.len() {
                proof {
                    assert(tv.subrange(0, next as int) =~= tv);
                    assert forall|w: JsepNode| tv == node_tokens(#[trigger] w@) implies node@
                        == w@ by {
                        assert(node_reads_as(tokens@, 0, w));
                    }
                }
                Some(node)
            } else {
                proof {
                    assert forall|w: JsepNode| tv == node_tokens(#[trigger] w@) implies false by {
                        assert(tv.subrange(0, tv.len() as int) =~= tv);
                        assert(node_reads_as(tokens@, 0, w));
                    }
                }
                None
            }
        },
        None => {
            proof {
                assert forall|w: JsepNode| tv == node_tokens(#[trigger] w@) implies false by {
                    assert(tv.subrange(0, tv.len() as int) =~= tv);
                    assert(node_reads_as(tokens@, 0, w));
                }
            }
            None
        },
    }
}

/// A task as a row: its number, its kind, its default flow, the flows that
/// enter it and the flows that leave it.
pub type TaskRow = (i32, u8, i32, Vec<i32>, Vec<i32>);

/// What a task row is.
pub type TaskRowView = (i32, u8, i32, Seq<i32>, Seq<i32>);

/// A flow as a row: its number, its source, its target, and its condition
/// flattened; no tokens where it has no condition.
pub type FlowRow = (i32, i32, i32, Vec<Token>);

/// What a flow row is.
pub type FlowRowView = (i32, i32, i32, Seq<TokenView>);

/// A definition laid out as plain values: version, name, start event and
/// autostart; the tasks; their identifiers; the flows; their identifiers.
pub type DefinitionFrame = (
    (String, String, i32, Option<bool>),
    Vec<TaskRow>,
    Vec<String>,
    Vec<FlowRow>,
    Vec<String>,
);

/// What a definition frame is.
pub struct DefinitionFrameView {
    pub version: Seq<char>,
    pub id: Seq<char>,
    pub start_event: i32,
    pub autostart: Option<bool>,
    pub tasks: Seq<TaskRowView>,
    pub task_ids: Seq<Seq<char>>,
    pub flows: Seq<FlowRowView>,
    pub flow_ids: Seq<Seq<char>>,
}

pub const ROW_START_EVENT: u8 = 0;

pub const ROW_END_EVENT: u8 = 1;

pub const ROW_USER_TASK: u8 = 2;

pub const ROW_GATEWAY: u8 = 3;

/// The row of a task.  What a kind of task does not have is left empty.
pub open spec fn task_row_of(task: TaskView) -> TaskRowView {
    match task.def {
        TaskDefView::StartEvent { outgoing } => (
            task.id,
            ROW_START_EVENT,
            0i32,
            Seq::empty(),
            outgoing,
        ),
        TaskDefView::EndEvent { incoming } => (task.id, ROW_END_EVENT, 0i32, incoming, Seq::empty()),
        TaskDefView::UserTask { incoming, outgoing } => (
            task.id,
            ROW_USER_TASK,
            0i32,
            incoming,
            outgoing,
        ),
        TaskDefView::ExclusiveGateway { incoming, outgoing, default } => (
            task.id,
            ROW_GATEWAY,
            default,
            incoming,
            outgoing,
        ),
    }
}

/// The row of a flow.
pub open spec fn flow_row_of(flow: FlowView) -> FlowRowView {
    (
        flow.id,
        flow.source_ref,
        flow.target_ref,
        match flow.condition {
            Some(node) => node_tokens(node),
            None => Seq::empty(),
        },
    )
}

/// A definition can be stored where it stands alone, without parent and
/// without children.
pub open spec fn storable(d: DefinitionView) -> bool {
    d.parent is None && d.children is None
}

/// The frame of a definition that stands alone.
pub open spec fn definition_frame_of(d: DefinitionView) -> DefinitionFrameView {
    DefinitionFrameView {
        version: d.version,
        id: d.id,
        start_event: d.start_event,
        autostart: d.autostart,
        tasks: Seq::new(d.tasks.len(), |i: int| task_row_of(d.tasks[i])),
        task_ids: d.task_ids,
        flows: Seq::new(d.flows.len(), |i: int| flow_row_of(d.flows[i])),
        flow_ids: d.flow_ids,
    }
}

/// What a task row is.
pub open spec fn task_row_view(row: TaskRow) -> TaskRowView {
    (row.0, row.1, row.2, row.3@, row.4@)
}

/// What a flow row is.
pub open spec fn flow_row_view(row: FlowRow) -> FlowRowView {
    (row.0, row.1, row.2, tokens_view(row.3@))
}

/// What a run of identifiers is.
pub open spec fn names_view(names: Seq<String>) -> Seq<Seq<char>> {
    Seq::new(names.len(), |i: int| names[i]@)
}

/// What a definition frame is.
pub open spec fn definition_frame_view(frame: DefinitionFrame) -> DefinitionFrameView {
    DefinitionFrameView {
        version: frame.0.0@,
        id: frame.0.1@,
        start_event: frame.0.2,
        autostart: frame.0.3,
        tasks: Seq::new(frame.1@.len(), |i: int| task_row_view(frame.1@[i])),
        task_ids: names_view(frame.2@),
        flows: Seq::new(frame.3@.len(), |i: int| flow_row_view(frame.3@[i])),
        flow_ids: names_view(frame.4@),
    }
}

/// The frame that the archiver reads out of `bytes`, if it accepts them.
pub uninterp spec fn unarchived_definition(bytes: Seq<u8>) -> Option<DefinitionFrameView>;

/// The definition frame that `bytes` hold: the one that the archiver reads
/// out of them, unless they are too many to be an archive.
pub open spec fn definition_frame_in(bytes: Seq<u8>) -> Option<DefinitionFrameView> {
    if fits_archive(bytes.len()) {
        unarchived_definition(bytes)
    } else {
        None
    }
}

/// The bytes hold the definition `d`: it stands alone, and the bytes hold
/// its frame.
pub open spec fn holds_definition(bytes: Seq<u8>, d: DefinitionView) -> bool {
    storable(d) && definition_frame_in(bytes) == Some(definition_frame_of(d))
}

/// What a row weighs besides its lists or tokens.
pub const ROW_WEIGHT: usize = 64;

/// What an identifier weighs besides its text.
pub const NAME_WEIGHT: usize = 16;

/// What a task row weighs.
pub open spec fn task_row_weight(row: TaskRowView) -> nat {
    (ROW_WEIGHT + list_weight(row.3) + list_weight(row.4)) as nat
}

/// What a flow row weighs.
pub open spec fn flow_row_weight(row: FlowRowView) -> nat {
    (ROW_WEIGHT + tokens_weight(row.3, row.3.len())) as nat
}

/// What the first `n` task rows weigh.
pub open spec fn tasks_weight(rows: Seq<TaskRowView>, n: nat) -> nat
    decreases n,
{
    if n == 0 || n > rows.len() {
        0
    } else {
        tasks_weight(rows, (n - 1) as nat) + task_row_weight(rows[n - 1])
    }
}

/// What the first `n` flow rows weigh.
pub open spec fn flows_weight(rows: Seq<FlowRowView>, n: nat) -> nat
    decreases n,
{
    if n == 0 || n > rows.len() {
        0
    } else {
        flows_weight(rows, (n - 1) as nat) + flow_row_weight(rows[n - 1])
    }
}

/// What the first `n` identifiers weigh.
pub open spec fn names_weight(names: Seq<Seq<char>>, n: nat) -> nat
    decreases n,
{
    if n == 0 || n > names.len() {
        0
    } else {
        (names_weight(names, (n - 1) as nat) + NAME_WEIGHT + text_weight(names[n - 1])) as nat
    }
}

/// What a definition frame weighs.  The weight counts every byte that the
/// archive of the frame takes, and more: the numbers of the lists, the bytes
/// of the texts, and for each row, list, token and identifier more than its
/// fixed part and the padding before it take.
pub open spec fn definition_frame_weight(f: DefinitionFrameView) -> nat {
    (BASE_WEIGHT + text_weight(f.version) + text_weight(f.id) + tasks_weight(
        f.tasks,
        f.tasks.len(),
    ) + names_weight(f.task_ids, f.task_ids.len()) + flows_weight(f.flows, f.flows.len())
        + names_weight(f.flow_ids, f.flow_ids.len())) as nat
}

/// The frame is light enough to be archived: its archive stays below
/// `2^31` bytes.
pub open spec fn definition_frame_fits(f: DefinitionFrameView) -> bool {
    definition_frame_weight(f) <= ARCHIVE_LIMIT
}

/// The definition is light enough to be stored.
pub open spec fn definition_fits(d: DefinitionView) -> bool {
    definition_frame_fits(definition_frame_of(d))
}

/// More task rows weigh more.
pub proof fn lemma_tasks_weight_grows(rows: Seq<TaskRowView>, n: nat, m: nat)
    requires
        n <= m <= rows.len(),
    ensures
        tasks_weight(rows, n) <= tasks_weight(rows, m),
    decreases m - n,
{
    if n < m {
        lemma_tasks_weight_grows(rows, n, (m - 1) as nat);
    }
}

/// More flow rows weigh more.
pub proof fn lemma_flows_weight_grows(rows: Seq<FlowRowView>, n: nat, m: nat)
    requires
        n <= m <= rows.len(),
    ensures
        flows_weight(rows, n) <= flows_weight(rows, m),
    decreases m - n,
{
    if n < m {
        lemma_flows_weight_grows(rows, n, (m - 1) as nat);
    }
}

/// More identifiers weigh more.
pub proof fn lemma_names_weight_grows(names: Seq<Seq<char>>, n: nat, m: nat)
    requires
        n <= m <= names.len(),
    ensures
        names_weight(names, n) <= names_weight(names, m),
    decreases m - n,
{
    if n < m {
        lemma_names_weight_grows(names, n, (m - 1) as nat);
    }
}

/// Adds the weight of a run of task rows.
pub fn weigh_tasks(rows: &Vec<TaskRow>, total: usize) -> (r: Option<usize>)
    ensures
        match r {
            Some(w) => w == total + tasks_weight(
                Seq::new(rows@.len(), |i: int| task_row_view(rows@[i])),
                rows@.len(),
            ) && w <= ARCHIVE_LIMIT,
            None => total + tasks_weight(
                Seq::new(rows@.len(), |i: int| task_row_view(rows@[i])),
                rows@.len(),
            ) > ARCHIVE_LIMIT,
        },
{
    let ghost rv = Seq::new(rows@.len(), |i: int| task_row_view(rows@[i]));
    let mut sum = match weigh_more(total, 0) {
        Some(w) => w,
        None => {
            return None;
        },
    };
    let mut i: usize = 0;
    while i < rows.len()
        invariant
            rv == Seq::new(rows@.len(), |i: int| task_row_view(rows@[i])),
            i <= rows@.len(),
            sum == total + tasks_weight(rv, i as nat),
            sum <= ARCHIVE_LIMIT,
        decreases rows@.len() - i,
    {
        proof {
            lemma_tasks_weight_grows(rv, (i + 1) as nat, rows@.len());
            assert(rv[i as int] == task_row_view(rows@[i as int]));
        }
        let with_row = match weigh_more(sum, ROW_WEIGHT) {
            Some(w) => w,
            None => {
                return None;
            },
        };
        let with_incoming = match weigh_list(&rows[i].3, with_row) {
            Some(w) => w,
            None => {
                return None;
            },
        };
        sum = match weigh_list(&rows[i].4, with_incoming) {
            Some(w) => w,
            None => {
                return None;
            },
        };
        i += 1;
    }
    Some(sum)
}

/// Adds the weight of a run of flow rows.
pub fn weigh_flows(rows: &Vec<FlowRow>, total: usize) -> (r: Option<usize>)
    ensures
        match r {
            Some(w) => w == total + flows_weight(
                Seq::new(rows@.len(), |i: int| flow_row_view(rows@[i])),
                rows@.len(),
            ) && w <= ARCHIVE_LIMIT,
            None => total + flows_weight(
                Seq::new(rows@.len(), |i: int| flow_row_view(rows@[i])),
                rows@.len(),
            ) > ARCHIVE_LIMIT,
        },
{
    let ghost rv = Seq::new(rows@.len(), |i: int| flow_row_view(rows@[i]));
    let mut sum = match weigh_more(total, 0) {
        Some(w) => w,
        None => {
            return None;
        },
    };
    let mut i: usize = 0;
    while i < rows.len()
        invariant
            rv == Seq::new(rows@.len(), |i: int| flow_row_view(rows@[i])),
            i <= rows@.len(),
            sum == total + flows_weight(rv, i as nat),
            sum <= ARCHIVE_LIMIT,
        decreases rows@.len() - i,
    {
        proof {
            lemma_flows_weight_grows(rv, (i + 1) as nat, rows@.len());
            assert(rv[i as int] == flow_row_view(rows@[i as int]));
        }
        let with_row = match weigh_more(sum, ROW_WEIGHT) {
            Some(w) => w,
            None => {
                return None;
            },
        };
        sum = match weigh_tokens(&rows[i].3, with_row) {
            Some(w) => w,
            None => {
                return None;
            },
        };
        i += 1;
    }
    Some(sum)
}

/// Adds the weight of a run of identifiers.
pub fn weigh_names(names: &Vec<String>, total: usize) -> (r: Option<usize>)
    ensures
        match r {
            Some(w) => w == total + names_weight(names_view(names@), names@.len()) && w
                <= ARCHIVE_LIMIT,
            None => total + names_weight(names_view(names@), names@.len()) > ARCHIVE_LIMIT,
        },
{
    let ghost nv = names_view(names@);
    let mut sum = match weigh_more(total, 0) {
        Some(w) => w,
        None => {
            return None;
        },
    };
    let mut i: usize = 0;
    while i < names.len()
        invariant
            nv == names_view(names@),
            i <= names@.len(),
            sum == total + names_weight(nv, i as nat),
            sum <= ARCHIVE_LIMIT,
        decreases names@.len() - i,
    {
        proof {
            lemma_names_weight_grows(nv, (i + 1) as nat, names@.len());
            assert(nv[i as int] == names@[i as int]@);
        }
        let with_name = match weigh_more(sum, NAME_WEIGHT) {
            Some(w) => w,
            None => {
                return None;
            },
        };
        sum = match weigh_text(names[i].as_str(), with_name) {
            Some(w) => w,
            None => {
                return None;
            },
        };
        i += 1;
    }
    Some(sum)
}

/// Weighs a definition frame, as long as it is light enough to be archived.
pub fn weigh_definition_frame(frame: &DefinitionFrame) -> (r: Option<usize>)
    ensures
        match r {
            Some(w) => w == definition_frame_weight(definition_frame_view(*frame))
                && definition_frame_fits(definition_frame_view(*frame)),
            None => !definition_frame_fits(definition_frame_view(*frame)),
        },
{
    let with_version = match weigh_text(frame.0.0.as_str(), BASE_WEIGHT) {
        Some(w) => w,
        None => {
            return None;
        },
    };
    let with_id = match weigh_text(frame.0.1.as_str(), with_version) {
        Some(w) => w,
        None => {
            return None;
        },
    };
    let with_tasks = match weigh_tasks(&frame.1, with_id) {
        Some(w) => w,
        None => {
            return None;
        },
    };
    let with_task_ids = match weigh_names(&frame.2, with_tasks) {
        Some(w) => w,
        None => {
            return None;
        },
    };
    let with_flows = match weigh_flows(&frame.3, with_task_ids) {
        Some(w) => w,
        None => {
            return None;
        },
    };
    weigh_names(&frame.4, with_flows)
}

/// Archives a definition frame with `rkyv::to_bytes`.  For a frame that is
/// light enough the archiver writes: none of its errors can come up for
/// plain values, and every length and distance fits.  The bytes it returns
/// are no more than the frame weighs, and are bytes that `rkyv::from_bytes`
/// accepts and reads back as a frame with the same content.
#[verifier::external_body]
fn archive_definition(frame: &DefinitionFrame) -> (r: Option<Vec<u8>>)
    requires
        definition_frame_fits(definition_frame_view(*frame)),
    ensures
        match r {
            Some(bytes) => bytes@.len() <= definition_frame_weight(definition_frame_view(*frame))
                && unarchived_definition(bytes@) == Some(definition_frame_view(*frame)),
            None => false,
        },
{
    match rkyv::to_bytes::<DefinitionFrame, 256>(frame) {
        Ok(bytes) => Some(bytes.to_vec()),
        Err(_) => None,
    }
}

/// Checks and reads a definition frame with `rkyv::from_bytes`, on a copy of
/// the bytes in an `rkyv::AlignedVec`, which is aligned as the archiver
/// wants it and takes no more bytes than an archive can be.  What comes back
/// is what the archiver reads out of the bytes.
#[verifier::external_body]
fn unarchive_definition(bytes: &[u8]) -> (r: Option<DefinitionFrame>)
    requires
        fits_archive(bytes@.len()),
    ensures
        match r {
            Some(frame) => unarchived_definition(bytes@) == Some(definition_frame_view(frame)),
            None => unarchived_definition(bytes@) is None,
        },
{
    let mut aligned = rkyv::AlignedVec::with_capacity(bytes.len());
    aligned.extend_from_slice(bytes);
    match rkyv::from_bytes::<DefinitionFrame>(&aligned) {
        Ok(frame) => Some(frame),
        Err(_) => None,
    }
}

/// Lays a task out as a row.
pub fn task_row(task: &Task) -> (row: TaskRow)
    ensures
        task_row_view(row) == task_row_of(task@),
{
    match &task.def {
        TaskDef::StartEvent(ev) => (
            task.id,
            ROW_START_EVENT,
            0,
            Vec::new(),
            copy_list(&ev.outgoing),
        ),
        TaskDef::EndEvent(ev) => (task.id, ROW_END_EVENT, 0, copy_list(&ev.incoming), Vec::new()),
        TaskDef::UserTask(ev) => (
            task.id,
            ROW_USER_TASK,
            0,
            copy_list(&ev.incoming),
            copy_list(&ev.outgoing),
        ),
        TaskDef::ExclusiveGateway(ev) => (
            task.id,
            ROW_GATEWAY,
            ev.default,
            copy_list(&ev.incoming),
            copy_list(&ev.outgoing),
        ),
    }
}

/// Reads the task that a row holds: the task whose row it is, if there is
/// one.
pub fn task_of_row(row: &TaskRow) -> (r: Option<Task>)
    ensures
        r matches Some(task) ==> task_row_view(*row) == task_row_of(task@),
        forall|w: Task|
            task_row_view(*row) == task_row_of(#[trigger] w@) ==> (r matches Some(task) && task@
                == w@),
{
    let kind = row.1;
    if kind == ROW_START_EVENT && row.2 == 0 && row.3.len() == 0 {
        let task = Task {
            id: row.0,
            def: TaskDef::StartEvent(StartEventDef { outgoing: copy_list(&row.4) }),
        };
        assert(task_row_view(*row).3 =~= task_row_of(task@).3);
        Some(task)
    } else if kind == ROW_END_EVENT && row.2 == 0 && row.4.len() == 0 {
        let task = Task {
            id: row.0,
            def: TaskDef::EndEvent(EndEventDef { incoming: copy_list(&row.3) }),
        };
        assert(task_row_view(*row).4 =~= task_row_of(task@).4);
        Some(task)
    } else if kind == ROW_USER_TASK && row.2 == 0 {
        Some(
            Task {
                id: row.0,
                def: TaskDef::UserTask(
                    UserTaskDef { incoming: copy_list(&row.3), outgoing: copy_list(&row.4) },
                ),
            },
        )
    } else if kind == ROW_GATEWAY {
        Some(
            Task {
                id: row.0,
                def: TaskDef::ExclusiveGateway(
                    ExclusiveGatewayDef {
                        incoming: copy_list(&row.3),
                        outgoing: copy_list(&row.4),
                        default: row.2,
                    },
                ),
            },
        )
    } else {
        None
    }
}

/// Lays a flow out as a row.
pub fn flow_row(flow: &Flow) -> (row: FlowRow)
    ensures
        flow_row_view(row) == flow_row_of(flow@),
{
    let tokens = match &flow.condition_expression {
        Some(ConditionExpression::Jsep(node)) => flattened_node(node),
        None => {
            let none: Vec<Token> = Vec::new();
            assert(tokens_view(none@) =~= Seq::<TokenView>::empty());
            none
        },
    };
    (flow.id, flow.source_ref, flow.target_ref, tokens)
}

/// Reads the flow that a row holds: the flow whose row it is, if there is
/// one.
pub fn flow_of_row(row: &FlowRow) -> (r: Option<Flow>)
    ensures
        r matches Some(flow) ==> flow_row_view(*row) == flow_row_of(flow@),
        forall|w: Flow|
            flow_row_view(*row) == flow_row_of(#[trigger] w@) ==> (r matches Some(flow) && flow@
                == w@),
{
    if row.3.len() == 0 {
        let flow = Flow {
            id: row.0,
            source_ref: row.1,
            target_ref: row.2,
            condition_expression: None,
        };
        proof {
            assert(tokens_view(row.3@) =~= Seq::<TokenView>::empty());
            assert forall|w: Flow| flow_row_view(*row) == flow_row_of(#[trigger] w@) implies flow@
                == w@ by {
                if let Some(node) = w@.condition {
                    lemma_node_head(node);
                }
            }
        }
        Some(flow)
    } else {
        match unflattened_node(&row.3) {
            Some(node) => {
                let flow = Flow {
                    id: row.0,
                    source_ref: row.1,
                    target_ref: row.2,
                    condition_expression: Some(ConditionExpression::Jsep(node)),
                };
                proof {
                    assert forall|w: Flow|
                        flow_row_view(*row) == flow_row_of(#[trigger] w@) implies flow@ == w@ by {
                        match w.condition_expression {
                            Some(ConditionExpression::Jsep(other)) => {
                                assert(tokens_view(row.3@) == node_tokens(other@));
                            },
                            None => {},
                        }
                    }
                }
                Some(flow)
            },
            None => {
                proof {
                    assert(tokens_view(row.3@).len() > 0);
                    assert forall|w: Flow| flow_row_view(*row) != flow_row_of(#[trigger] w@) by {
                        match w.condition_expression {
                            Some(ConditionExpression::Jsep(other)) => {
                                if flow_row_view(*row) == flow_row_of(w@) {
                                    assert(tokens_view(row.3@) == node_tokens(other@));
                                }
                            },
                            None => {},
                        }
                    }
                }
                None
            },
        }
    }
}

fn copy_names(names: &Vec<String>) -> (copy: Vec<String>)
    ensures
        names_view(copy@) == names_view(names@),
{
    let mut copy: Vec<String> = Vec::new();
    let mut i: usize = 0;
    while i < names.len()
        invariant
            i <= names@.len(),
            copy@.len() == i,
            forall|j: int| 0 <= j < i ==> (#[trigger] copy@[j])@ == names@[j]@,
        decreases names@.len() - i,
    {
        copy.push(names[i].clone());
        i += 1;
    }
    assert(names_view(copy@) =~= names_view(names@));
    copy
}

/// Lays a definition out as a frame.  A definition that has a parent or
/// children has no frame.
pub fn frame_from_definition(d: &WorkflowDefinition) -> (r: Option<DefinitionFrame>)
    ensures
        match r {
            Some(frame) => storable(d@) && definition_frame_view(frame) == definition_frame_of(d@),
            None => !storable(d@),
        },
{
    proof {
        lemma_view_shape(*d);
    }
    if d.parent.is_some() || d.children.is_some() {
        return None;
    }
    proof {
        lemma_flat_view(*d);
    }
    let mut tasks: Vec<TaskRow> = Vec::new();
    let mut i: usize = 0;
    while i < d.tasks.len()
        invariant
            i <= d.tasks@.len(),
            tasks@.len() == i,
            forall|j: int| 0 <= j < i ==> task_row_view(#[trigger] tasks@[j]) == task_row_of(
                d.tasks@[j]@,
            ),
        decreases d.tasks@.len() - i,
    {
        tasks.push(task_row(&d.tasks[i]));
        i += 1;
    }
    let mut flows: Vec<FlowRow> = Vec::new();
    let mut k: usize = 0;
    while k < d.flows.len()
        invariant
            k <= d.flows@.len(),
            flows@.len() == k,
            forall|j: int| 0 <= j < k ==> flow_row_view(#[trigger] flows@[j]) == flow_row_of(
                d.flows@[j]@,
            ),
        decreases d.flows@.len() - k,
    {
        flows.push(flow_row(&d.flows[k]));
        k += 1;
    }
    let autostart = match &d.options {
        Some(options) => Some(options.autostart),
        None => None,
    };
    let frame: DefinitionFrame = (
        (d.version.clone(), d.id.clone(), d.start_event, autostart),
        tasks,
        copy_names(&d.task_ids),
        flows,
        copy_names(&d.flow_ids),
    );
    proof {
        let have = definition_frame_view(frame);
        let want = definition_frame_of(d@);
        assert(have.tasks =~= want.tasks);
        assert(have.flows =~= want.flows);
        assert(have.task_ids =~= want.task_ids);
        assert(have.flow_ids =~= want.flow_ids);
    }
    Some(frame)
}

/// Reads the definition that a frame holds: the definition whose frame it
/// is, if there is one.
pub fn definition_from_frame(frame: &DefinitionFrame) -> (r: Result<WorkflowDefinition, CodecError>)
    ensures
        match r {
            Ok(d) => storable(d@) && definition_frame_view(*frame) == definition_frame_of(d@),
            Err(e) => e == CodecError::Shape && forall|w: WorkflowDefinition|
                !(storable(#[trigger] w@) && definition_frame_view(*frame) == definition_frame_of(
                    w@,
                )),
        },
        forall|w: WorkflowDefinition|
            storable(#[trigger] w@) && definition_frame_view(*frame) == definition_frame_of(w@) ==> (
            r matches Ok(d) && d@ == w@),
{
    let ghost view = definition_frame_view(*frame);
    let mut tasks: Vec<Task> = Vec::new();
    let mut i: usize = 0;
    while i < frame.1.len()
        invariant
            view == definition_frame_view(*frame),
            i <= frame.1@.len(),
            tasks@.len() == i,
            forall|j: int| 0 <= j < i ==> task_row_view(frame.1@[j]) == task_row_of(
                (#[trigger] tasks@[j])@,
            ),
            forall|j: int, w: Task|
                0 <= j < i && task_row_view(frame.1@[j]) == task_row_of(#[trigger] w@)
                    ==> (#[trigger] tasks@[j])@ == w@,
        decreases frame.1@.len() - i,
    {
        match task_of_row(&frame.1[i]) {
            Some(task) => {
                tasks.push(task);
            },
            None => {
                proof {
                    assert forall|w: WorkflowDefinition|
                        !(storable(#[trigger] w@) && view == definition_frame_of(w@)) by {
                        if storable(w@) && view == definition_frame_of(w@) {
                            lemma_view_shape(w);
                            lemma_flat_view(w);
                            let other = definition_frame_of(w@);
                            assert(view.tasks.len() == frame.1@.len());
                            assert(other.tasks.len() == w@.tasks.len());
                            assert(w@.tasks.len() == w.tasks@.len());
                            assert(view.tasks[i as int] == task_row_view(frame.1@[i as int]));
                            assert(other.tasks[i as int] == task_row_of(w@.tasks[i as int]));
                            assert(w@.tasks[i as int] == w.tasks@[i as int]@);
                            assert(task_row_view(frame.1@[i as int]) == task_row_of(
                                w.tasks@[i as int]@,
                            ));
                        }
                    }
                }
                return Err(CodecError::Shape);
            },
        }
        i += 1;
    }
    let mut flows: Vec<Flow> = Vec::new();
    let mut k: usize = 0;
    while k < frame.3.len()
        invariant
            view == definition_frame_view(*frame),
            k <= frame.3@.len(),
            flows@.len() == k,
            forall|j: int| 0 <= j < k ==> flow_row_view(frame.3@[j]) == flow_row_of(
                (#[trigger] flows@[j])@,
            ),
            forall|j: int, w: Flow|
                0 <= j < k && flow_row_view(frame.3@[j]) == flow_row_of(#[trigger] w@)
                    ==> (#[trigger] flows@[j])@ == w@,
        decreases frame.3@.len() - k,
    {
        match flow_of_row(&frame.3[k]) {
            Some(flow) => {
                flows.push(flow);
            },
            None => {
                proof {
                    assert forall|w: WorkflowDefinition|
                        !(storable(#[trigger] w@) && view == definition_frame_of(w@)) by {
                        if storable(w@) && view == definition_frame_of(w@) {
                            lemma_view_shape(w);
                            lemma_flat_view(w);
                            let other = definition_frame_of(w@);
                            assert(view.flows.len() == frame.3@.len());
                            assert(other.flows.len() == w@.flows.len());
                            assert(w@.flows.len() == w.flows@.len());
                            assert(view.flows[k as int] == flow_row_view(frame.3@[k as int]));
                            assert(other.flows[k as int] == flow_row_of(w@.flows[k as int]));
                            assert(w@.flows[k as int] == w.flows@[k as int]@);
                            assert(flow_row_view(frame.3@[k as int]) == flow_row_of(
                                w.flows@[k as int]@,
                            ));
                        }
                    }
                }
                return Err(CodecError::Shape);
            },
        }
        k += 1;
    }
    let options = match frame.0.3 {
        Some(autostart) => Some(WorkflowProperties { autostart }),
        None => None,
    };
    let d = WorkflowDefinition {
        version: frame.0.0.clone(),
        id: frame.0.1.clone(),
        start_event: frame.0.2,
        parent: None,
        flows,
        flow_ids: copy_names(&frame.4),
        tasks,
        task_ids: copy_names(&frame.2),
        children: None,
        options,
    };
    proof {
        lemma_flat_view(d);
        let want = definition_frame_of(d@);
        assert(view.tasks =~= want.tasks);
        assert(view.flows =~= want.flows);
        assert(view.task_ids =~= want.task_ids);
        assert(view.flow_ids =~= want.flow_ids);
        assert forall|w: WorkflowDefinition|
            storable(#[trigger] w@) && view == definition_frame_of(w@) implies d@ == w@ by {
            lemma_view_shape(w);
            lemma_flat_view(w);
            let other = definition_frame_of(w@);
            assert(w@.tasks.len() == d@.tasks.len()) by {
                assert(other.tasks.len() == view.tasks.len());
            }
            assert(w@.flows.len() == d@.flows.len()) by {
                assert(other.flows.len() == view.flows.len());
            }
            assert forall|j: int| 0 <= j < d@.tasks.len() implies d@.tasks[j] == w@.tasks[j] by {
                assert(view.tasks[j] == other.tasks[j]);
                assert(task_row_view(frame.1@[j]) == task_row_of(w.tasks@[j]@));
                assert(tasks@[j]@ == w.tasks@[j]@);
            }
            assert forall|j: int| 0 <= j < d@.flows.len() implies d@.flows[j] == w@.flows[j] by {
                assert(view.flows[j] == other.flows[j]);
                assert(flow_row_view(frame.3@[j]) == flow_row_of(w.flows@[j]@));
                assert(flows@[j]@ == w.flows@[j]@);
            }
            assert(d@.tasks =~= w@.tasks);
            assert(d@.flows =~= w@.flows);
        }
    }
    Ok(d)
}

/// Why a definition is not stored, if it is not: for its shape where it
/// has a parent or children, and else for its weight where it is too heavy
/// to be archived.
pub open spec fn storing_error(d: DefinitionView) -> Option<CodecError> {
    if !storable(d) {
        Some(CodecError::Shape)
    } else if !definition_fits(d) {
        Some(CodecError::Archive)
    } else {
        None
    }
}

/// Stores a definition as bytes.  The bytes hold the definition, and are no
/// more than its frame weighs.  A definition with a parent or children is
/// refused for its shape, and one too heavy to be archived for its weight.
pub fn serialize(workflow: &WorkflowDefinition) -> (r: Result<Vec<u8>, CodecError>)
    ensures
        match r {
            Ok(bytes) => storing_error(workflow@) is None && holds_definition(bytes@, workflow@)
                && bytes@.len() <= definition_frame_weight(definition_frame_of(workflow@)),
            Err(e) => storing_error(workflow@) == Some(e),
        },
{
    match frame_from_definition(workflow) {
        Some(frame) => match weigh_definition_frame(&frame) {
            Some(_) => match archive_definition(&frame) {
                Some(bytes) => Ok(bytes),
                None => Err(CodecError::Archive),
            },
            None => Err(CodecError::Archive),
        },
        None => Err(CodecError::Shape),
    }
}

/// Reads a definition from bytes.  Bytes that hold a definition give that
/// definition; bytes that hold no frame are refused for their schema, and a
/// frame that holds no definition for its shape.
pub fn deserialize(data: &[u8]) -> (r: Result<WorkflowDefinition, CodecError>)
    ensures
        match r {
            Ok(d) => holds_definition(data@, d@),
            Err(e) => e == (if definition_frame_in(data@) is None {
                CodecError::Schema
            } else {
                CodecError::Shape
            }) && forall|w: WorkflowDefinition| !holds_definition(data@, #[trigger] w@),
        },
        forall|w: WorkflowDefinition|
            holds_definition(data@, #[trigger] w@) ==> (r matches Ok(d) && d@ == w@),
{
    if data.len() > isize::MAX as usize - ARCHIVE_MARGIN {
        return Err(CodecError::Schema);
    }
    match unarchive_definition(data) {
        Some(frame) => definition_from_frame(&frame),
        None => Err(CodecError::Schema),
    }
}

/// Stores a definition and reads it back: what comes back is the
/// definition, unless it cannot be stored.
pub fn stored_and_read(workflow: &WorkflowDefinition) -> (r: Result<WorkflowDefinition, CodecError>)
    ensures
        match r {
            Ok(read) => storing_error(workflow@) is None && read@ == workflow@,
            Err(e) => storing_error(workflow@) == Some(e),
        },
{
    match serialize(workflow) {
        Ok(bytes) => {
            let r = deserialize(bytes.as_slice());
            assert(holds_definition(bytes@, workflow@));
            r
        },
        Err(e) => Err(e),
    }
}

} // verus!
