//! The expression tree of a gateway condition.

use vstd::prelude::*;
use crate::json::JsonModel;
use crate::json::JsonValue;
use crate::text::str_equal;

verus! {

/// A binary operator of the expression language.
#[derive(Debug, Clone, Copy, PartialEq, Eq, Structural)]
pub enum Operator {
    Equal,
    NotEqual,
    Greater,
    GreaterOrEqual,
    Lower,
    LowerOrEqual,
    And,
    Or,
}

#[derive(Debug)]
pub struct BinaryExpression {
    pub operator: Operator,
    pub left: Box<JsepNode>,
    pub right: Box<JsepNode>,
}

#[derive(Debug)]
pub struct ExpressionIdentifier {
    pub name: String,
}

#[derive(Debug)]
pub struct ExpressionLiteral {
    pub value: JsonValue,
}

#[derive(Debug)]
pub struct ConditionalExpression {
    pub test: Box<JsepNode>,
    pub consequent: Box<JsepNode>,
    pub alternate: Box<JsepNode>,
}

#[derive(Debug)]
pub struct MemberExpression {
    pub computed: bool,
    pub optional: bool,
    pub object: Box<JsepNode>,
    pub property: Box<JsepNode>,
}

#[derive(Debug)]
pub enum JsepNode {
    ConditionalExpression(ConditionalExpression),
    BinaryExpression(BinaryExpression),
    Identifier(ExpressionIdentifier),
    Literal(ExpressionLiteral),
    MemberExpression(MemberExpression),
}

/// What an expression is: the mathematical tree that a [`JsepNode`] stores.
pub enum NodeModel {
    Conditional(Box<NodeModel>, Box<NodeModel>, Box<NodeModel>),
    Binary(Operator, Box<NodeModel>, Box<NodeModel>),
    Identifier(Seq<char>),
    Literal(JsonModel),
    Member(bool, bool, Box<NodeModel>, Box<NodeModel>),
}

/// What an expression is.
pub open spec fn node_model(node: JsepNode) -> NodeModel
    decreases node,
{
    match node {
        JsepNode::ConditionalExpression(n) => NodeModel::Conditional(
            Box::new(node_model(*n.test)),
            Box::new(node_model(*n.consequent)),
            Box::new(node_model(*n.alternate)),
        ),
        JsepNode::BinaryExpression(n) => NodeModel::Binary(
            n.operator,
            Box::new(node_model(*n.left)),
            Box::new(node_model(*n.right)),
        ),
        JsepNode::Identifier(n) => NodeModel::Identifier(n.name@),
        JsepNode::Literal(n) => NodeModel::Literal(n.value@),
        JsepNode::MemberExpression(n) => NodeModel::Member(
            n.computed,
            n.optional,
            Box::new(node_model(*n.object)),
            Box::new(node_model(*n.property)),
        ),
    }
}

impl View for JsepNode {
    type V = NodeModel;

    open spec fn view(&self) -> NodeModel {
        node_model(*self)
    }
}

impl Operator {
    /// The operator that a piece of text spells, if it spells one.
    pub open spec fn spelled(s: Seq<char>) -> Option<Operator> {
        if s == "=="@ {
            Some(Operator::Equal)
        } else if s == "!="@ {
            Some(Operator::NotEqual)
        } else if s == ">"@ {
            Some(Operator::Greater)
        } else if s == ">="@ {
            Some(Operator::GreaterOrEqual)
        } else if s == "<"@ {
            Some(Operator::Lower)
        } else if s == "<="@ {
            Some(Operator::LowerOrEqual)
        } else if s == "&&"@ {
            Some(Operator::And)
        } else if s == "||"@ {
            Some(Operator::Or)
        } else {
            None
        }
    }

    /// What is reported of a text that spells no operator.
    pub open spec fn invalid_message(s: Seq<char>) -> Seq<char> {
        "Invalid operator '"@ + s + "'"@
    }

    /// Reads an operator from its spelling.
    pub fn parse(s: &str) -> (r: Result<Operator, String>)
        ensures
            match r {
                Ok(op) => Operator::spelled(s@) == Some(op),
                Err(e) => Operator::spelled(s@) is None && e@ == Operator::invalid_message(s@),
            },
    {
        if str_equal(s, "==") {
            Ok(Operator::Equal)
        } else if str_equal(s, "!=") {
            Ok(Operator::NotEqual)
        } else if str_equal(s, ">") {
            Ok(Operator::Greater)
        } else if str_equal(s, ">=") {
            Ok(Operator::GreaterOrEqual)
        } else if str_equal(s, "<") {
            Ok(Operator::Lower)
        } else if str_equal(s, "<=") {
            Ok(Operator::LowerOrEqual)
        } else if str_equal(s, "&&") {
            Ok(Operator::And)
        } else if str_equal(s, "||") {
            Ok(Operator::Or)
        } else {
            let message = String::from_str("Invalid operator '").concat(s).concat("'");
            Err(message)
        }
    }
}

impl std::str::FromStr for Operator {
    type Err = String;

    /// Reads an operator from its spelling, as [`Operator::parse`] does.
    fn from_str(s: &str) -> (r: Result<Operator, String>)
        ensures
            match r {
                Ok(op) => Operator::spelled(s@) == Some(op),
                Err(e) => Operator::spelled(s@) is None && e@ == Operator::invalid_message(s@),
            },
    {
        Operator::parse(s)
    }
}

} // verus!
