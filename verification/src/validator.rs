//! Evaluating gateway conditions against the variables of an instance.

use vstd::prelude::*;
use crate::jsep::BinaryExpression;
use crate::jsep::JsepNode;
use crate::jsep::MemberExpression;
use crate::jsep::Operator;
use crate::json::lemma_object_view;
use crate::json::lookup;
use crate::json::JsonModel;
use crate::json::JsonValue;
use crate::json::value_at_most;
use crate::json::value_below;
use crate::json::value_same;
use crate::model::ConditionExpression;
use crate::model::ExclusiveGatewayDef;
use crate::model::WorkflowDefinition;
use crate::text::str_equal;

verus! {

/// What is found under `name` in `value`: the entry of that name if `value`
/// is an object that has one, and otherwise null.
pub open spec fn member_of(value: JsonModel, name: Seq<char>) -> JsonModel {
    match value {
        JsonModel::Object(entries) => match lookup(entries, name) {
            Some(found) => found,
            None => JsonModel::Null,
        },
        _ => JsonModel::Null,
    }
}

/// What a member expression stands for.  Its property has to be an
/// identifier.  Under the root identifier `$steps` the property is looked up
/// in the variables; under another member expression it is looked up in what
/// that one stands for.  Every other shape, and every miss, gives null.
pub open spec fn member_value(member: MemberExpression, variables: JsonModel) -> JsonModel
    decreases member,
{
    match *member.property {
        JsepNode::Identifier(property) => match *member.object {
            JsepNode::MemberExpression(inner) => member_of(
                member_value(inner, variables),
                property.name@,
            ),
            JsepNode::Identifier(object) => if object.name@ == "$steps"@ {
                member_of(variables, property.name@)
            } else {
                JsonModel::Null
            },
            _ => JsonModel::Null,
        },
        _ => JsonModel::Null,
    }
}

/// What an operand stands for: a literal for its value, a member expression
/// for what it finds, anything else for null.
pub open spec fn operand_value(node: JsepNode, variables: JsonModel) -> JsonModel {
    match node {
        JsepNode::MemberExpression(member) => member_value(member, variables),
        JsepNode::Literal(lit) => lit.value@,
        _ => JsonModel::Null,
    }
}

/// The truth of `left op right`.
pub open spec fn operator_holds(op: Operator, left: JsonModel, right: JsonModel) -> bool {
    match op {
        Operator::Equal => value_same(left, right),
        Operator::NotEqual => !value_same(left, right),
        Operator::Greater => value_below(right, left),
        Operator::GreaterOrEqual => value_at_most(right, left),
        Operator::Lower => value_below(left, right),
        Operator::LowerOrEqual => value_at_most(left, right),
        Operator::And => left == JsonModel::Bool(true) && right == JsonModel::Bool(true),
        Operator::Or => left == JsonModel::Bool(true) || right == JsonModel::Bool(true),
    }
}

/// The truth of a binary expression under the variables.
pub open spec fn binary_holds(expr: BinaryExpression, variables: JsonModel) -> bool {
    operator_holds(
        expr.operator,
        operand_value(*expr.left, variables),
        operand_value(*expr.right, variables),
    )
}

/// The truth of a condition: that of its binary expression, and false for a
/// condition of any other shape.
pub open spec fn condition_holds(condition: ConditionExpression, variables: JsonModel) -> bool {
    match condition {
        ConditionExpression::Jsep(node) => match node {
            JsepNode::BinaryExpression(expr) => binary_holds(expr, variables),
            _ => false,
        },
    }
}

/// The flow `flow` exists, carries a condition, and the condition holds.
pub open spec fn flow_matches(
    definition: WorkflowDefinition,
    flow: i32,
    variables: JsonModel,
) -> bool {
    definition.flow_at(flow) matches Some(f) && f.condition_expression matches Some(c)
        && condition_holds(c, variables)
}

/// The branch a gateway takes: its first outgoing flow, in the order in
/// which they are listed, whose condition holds; its default flow where no
/// condition holds.
pub open spec fn chosen_branch(
    gateway: ExclusiveGatewayDef,
    definition: WorkflowDefinition,
    variables: JsonModel,
) -> i32 {
    if exists|k: int| is_first_match(gateway, definition, variables, k) {
        gateway.outgoing@[choose|k: int| is_first_match(gateway, definition, variables, k)]
    } else {
        gateway.default
    }
}

/// The outgoing flow at place `k` matches, and none before it does.
pub open spec fn is_first_match(
    gateway: ExclusiveGatewayDef,
    definition: WorkflowDefinition,
    variables: JsonModel,
    k: int,
) -> bool {
    &&& 0 <= k < gateway.outgoing@.len()
    &&& flow_matches(definition, gateway.outgoing@[k], variables)
    &&& forall|j: int| 0 <= j < k ==> !#[trigger] flow_matches(definition, gateway.outgoing@[j], variables)
}

/// A member expression, ready to be resolved.
pub struct Member<'a>(pub &'a MemberExpression);

/// An operand, ready to be resolved.
pub struct Value<'a>(pub &'a JsepNode);

/// A binary expression, ready to be evaluated.
pub struct Binary<'a>(pub &'a BinaryExpression);

/// A condition, ready to be evaluated.
pub struct Condition<'a>(pub &'a ConditionExpression);

/// A gateway, ready to choose its branch.
pub struct ExclusiveGateway<'a>(pub &'a ExclusiveGatewayDef);

/// Looks `name` up in `value`.
fn member<'v>(value: Option<&'v JsonValue>, name: &str) -> (r: Option<&'v JsonValue>)
    ensures
        denoted(r) == member_of(denoted(value), name@),
{
    match value {
        Some(JsonValue::Object(o)) => {
            proof {
                lemma_object_view(JsonValue::Object(*o));
            }
            o.get(name)
        },
        _ => None,
    }
}

/// The value that a reference stands for; none stands for null.
pub open spec fn denoted(r: Option<&JsonValue>) -> JsonModel {
    match r {
        Some(v) => v@,
        None => JsonModel::Null,
    }
}

impl<'a> Member<'a> {
    /// Resolves the expression; `None` stands for null.
    pub fn resolve<'v>(&self, variables: &'v JsonValue) -> (r: Option<&'v JsonValue>)
        ensures
            denoted(r) == member_value(*self.0, variables@),
        decreases *self.0,
    {
        match &*self.0.property {
            JsepNode::Identifier(property) => match &*self.0.object {
                JsepNode::MemberExpression(inner) => {
                    let found = Member(inner).resolve(variables);
                    member(found, property.name.as_str())
                },
                JsepNode::Identifier(object) => {
                    if str_equal(object.name.as_str(), "$steps") {
                        member(Some(variables), property.name.as_str())
                    } else {
                        None
                    }
                },
                _ => None,
            },
            _ => None,
        }
    }
}

impl<'a> Value<'a> {
    /// Resolves the operand; `None` stands for null.
    pub fn resolve<'v>(&self, variables: &'v JsonValue) -> (r: Option<&'v JsonValue>)
        where 'a: 'v
        ensures
            denoted(r) == operand_value(*self.0, variables@),
    {
        match self.0 {
            JsepNode::MemberExpression(member) => Member(member).resolve(variables),
            JsepNode::Literal(lit) => Some(&lit.value),
            _ => None,
        }
    }
}

impl<'a> Binary<'a> {
    pub fn validate(&self, variables: &JsonValue) -> (r: bool)
        ensures
            r == binary_holds(*self.0, variables@),
    {
        let null = JsonValue::Null;
        let left = match Value(&*self.0.left).resolve(variables) {
            Some(v) => v,
            None => &null,
        };
        let right = match Value(&*self.0.right).resolve(variables) {
            Some(v) => v,
            None => &null,
        };
        match self.0.operator {
            Operator::Equal => left.same_as(right),
            Operator::NotEqual => !left.same_as(right),
            Operator::Greater => right.less_than(left),
            Operator::GreaterOrEqual => right.at_most(left),
            Operator::Lower => left.less_than(right),
            Operator::LowerOrEqual => left.at_most(right),
            Operator::And => match (left.as_bool(), right.as_bool()) {
                (Some(l), Some(r)) => l && r,
                _ => false,
            },
            Operator::Or => {
                let l = match left.as_bool() {
                    Some(l) => l,
                    None => false,
                };
                let r = match right.as_bool() {
                    Some(r) => r,
                    None => false,
                };
                l || r
            },
        }
    }
}

impl<'a> Condition<'a> {
    pub fn validate(&self, variables: &JsonValue) -> (r: bool)
        ensures
            r == condition_holds(*self.0, variables@),
    {
        match self.0 {
            ConditionExpression::Jsep(node) => match node {
                JsepNode::BinaryExpression(binary_expr) => Binary(binary_expr).validate(variables),
                _ => false,
            },
        }
    }
}

impl<'a> ExclusiveGateway<'a> {
    /// Chooses the branch to take.  The result always holds one flow index;
    /// it is `-1` where no condition holds and the gateway has no default.
    pub fn evaluate(&self, definition: &WorkflowDefinition, variables: &JsonValue) -> (out: [
        i32;
        1
    ])
        ensures
            out@.len() == 1,
            out@[0] == chosen_branch(*self.0, *definition, variables@),
    {
        let mut i: usize = 0;
        while i < self.0.outgoing.len()
            invariant
                i <= self.0.outgoing@.len(),
                forall|j: int|
                    0 <= j < i ==> !#[trigger] flow_matches(
                        *definition,
                        self.0.outgoing@[j],
                        variables@,
                    ),
            decreases self.0.outgoing@.len() - i,
        {
            let outgoing = self.0.outgoing[i];
            let matched = match definition.flow(outgoing) {
                Some(flow) => match &flow.condition_expression {
                    Some(expr) => Condition(expr).validate(variables),
                    None => false,
                },
                None => false,
            };
            if matched {
                proof {
                    lemma_first_match(*self.0, *definition, variables@, i as int);
                }
                return [outgoing];
            }
            i += 1;
        }
        proof {
            assert(!exists|k: int| is_first_match(*self.0, *definition, variables@, k));
        }
        [self.0.default]
    }
}

/// A first match is the only first match.
pub proof fn lemma_first_match(
    gateway: ExclusiveGatewayDef,
    definition: WorkflowDefinition,
    variables: JsonModel,
    k: int,
)
    requires
        is_first_match(gateway, definition, variables, k),
    ensures
        chosen_branch(gateway, definition, variables) == gateway.outgoing@[k],
{
    let c = choose|c: int| is_first_match(gateway, definition, variables, c);
    if c < k {
        assert(!flow_matches(definition, gateway.outgoing@[c], variables));
    }
    if k < c {
        assert(!flow_matches(definition, gateway.outgoing@[k], variables));
    }
}

} // verus!
