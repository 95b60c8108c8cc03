//! The document model: a parsed configuration file as a recursive value.
//!
//! A document is a sequence of structural nodes in document order; a node is
//! either an attribute (a key and an expression) or a block (an identifier,
//! zero or more labels, and a nested body).  Expressions keep only the shapes
//! that string extraction distinguishes: string literals and keyed mappings;
//! every other expression kind (numbers, booleans, lists, references,
//! interpolations, ...) is collapsed to `Expr::Other`.  Block labels are kept
//! in their rendered form, without quoting marks.
//!
//! Turning configuration text into a `Document` is done by the `hcl` crate
//! behind the trusted items at the bottom of this module; everything
//! downstream works on this model and is verified against it.

use vstd::prelude::*;

verus! {

/// An expression, reduced to the shapes extraction distinguishes.
pub enum Expr {
    /// A string literal.
    Str(String),
    /// A keyed mapping of further expressions, in document order.
    Object(Vec<(ObjKey, Expr)>),
    /// Any other expression kind; it never produces a leaf.
    Other,
}

/// A key of a keyed mapping.
pub enum ObjKey {
    /// A plain identifier key.
    Ident(String),
    /// A dynamic (non-identifier) key; its entry is skipped by extraction.
    Other,
}

/// One structural node of a document body.
pub enum Node {
    /// `key = expr`
    Attr { key: String, expr: Expr },
    /// `ident "label1" "label2" { body }`
    Block { ident: String, labels: Vec<String>, body: Document },
}

/// A parsed configuration file: its structural nodes in document order.
pub struct Document {
    pub nodes: Vec<Node>,
}

/// Mathematical image of an `Expr`.
pub enum ExprV {
    Str(Seq<char>),
    Object(Seq<(ObjKeyV, ExprV)>),
    Other,
}

/// Mathematical image of an `ObjKey`.
pub enum ObjKeyV {
    Ident(Seq<char>),
    Other,
}

/// Mathematical image of a `Node`.
pub enum NodeV {
    Attr { key: Seq<char>, expr: ExprV },
    Block { ident: Seq<char>, labels: Seq<Seq<char>>, body: Seq<NodeV> },
}

pub open spec fn obj_key_view(k: ObjKey) -> ObjKeyV {
    match k {
        ObjKey::Ident(s) => ObjKeyV::Ident(s@),
        ObjKey::Other => ObjKeyV::Other,
    }
}

pub open spec fn expr_view(e: Expr) -> ExprV
    decreases e,
{
    match e {
        Expr::Str(s) => ExprV::Str(s@),
        Expr::Object(entries) => ExprV::Object(
            Seq::new(
                entries@.len(),
                |i: int|
                    if 0 <= i < entries@.len() {
                        (obj_key_view(entries@[i].0), expr_view(entries@[i].1))
                    } else {
                        (ObjKeyV::Other, ExprV::Other)
                    },
            ),
        ),
        Expr::Other => ExprV::Other,
    }
}

/// Image of a mapping's entries.
pub open spec fn entries_view(es: Seq<(ObjKey, Expr)>) -> Seq<(ObjKeyV, ExprV)> {
    Seq::new(
        es.len(),
        |i: int|
            if 0 <= i < es.len() {
                (obj_key_view(es[i].0), expr_view(es[i].1))
            } else {
                (ObjKeyV::Other, ExprV::Other)
            },
    )
}

pub open spec fn node_view(n: Node) -> NodeV
    decreases n,
{
    match n {
        Node::Attr { key, expr } => NodeV::Attr { key: key@, expr: expr_view(expr) },
        Node::Block { ident, labels, body } => NodeV::Block {
            ident: ident@,
            labels: Seq::new(labels@.len(), |i: int| labels@[i]@),
            body: Seq::new(
                body.nodes@.len(),
                |i: int|
                    if 0 <= i < body.nodes@.len() {
                        node_view(body.nodes@[i])
                    } else {
                        NodeV::Attr { key: Seq::empty(), expr: ExprV::Other }
                    },
            ),
        },
    }
}

/// Image of a sequence of nodes.
pub open spec fn nodes_view(ns: Seq<Node>) -> Seq<NodeV> {
    Seq::new(
        ns.len(),
        |i: int|
            if 0 <= i < ns.len() {
                node_view(ns[i])
            } else {
                NodeV::Attr { key: Seq::empty(), expr: ExprV::Other }
            },
    )
}

impl View for Document {
    type V = Seq<NodeV>;

    open spec fn view(&self) -> Seq<NodeV> {
        nodes_view(self.nodes@)
    }
}

/// What parsing a piece of configuration text yields: the document image on
/// success, nothing on a syntax error.  Parsing is deterministic in the text.
pub uninterp spec fn parsed_doc(text: Seq<char>) -> Option<Seq<NodeV>>;

#[verifier::external_type_specification]
#[verifier::external_body]
pub struct ExHclError(hcl::Error);

#[verifier::external_type_specification]
#[verifier::external_body]
pub struct ExHclBody(hcl::Body);

#[verifier::external_type_specification]
#[verifier::external_body]
pub struct ExHclStructure(hcl::Structure);

#[verifier::external_type_specification]
#[verifier::external_body]
pub struct ExHclExpression(hcl::Expression);

#[verifier::external_type_specification]
#[verifier::external_body]
pub struct ExHclObjectKey(hcl::ObjectKey);

/// Relies on hcl::parse: the parse result is a function of the text alone,
/// and parsing fails exactly on text that is not well-formed configuration.
#[verifier::external_body]
pub(crate) fn parse_hcl(text: &str) -> (r: Result<Document, hcl::Error>)
    ensures
        r matches Ok(d) ==> parsed_doc(text@) == Some(d@),
        r is Ok <==> parsed_doc(text@) is Some,
{
    match hcl::parse(text) {
        Ok(body) => Ok(convert_body(&body)),
        Err(e) => Err(e),
    }
}

/// Relies on hcl::Body: its structures, converted one for one in document
/// order.
#[verifier::external_body]
fn convert_body(body: &hcl::Body) -> Document {
    Document { nodes: body.iter().map(convert_structure).collect() }
}

/// Relies on hcl::Structure: an attribute moves its key and expression, a
/// block moves its identifier, its rendered labels and its nested body.
#[verifier::external_body]
fn convert_structure(s: &hcl::Structure) -> Node {
    match s {
        hcl::Structure::Attribute(a) => Node::Attr {
            key: a.key.as_str().to_owned(),
            expr: convert_expr(&a.expr),
        },
        hcl::Structure::Block(b) => Node::Block {
            ident: b.identifier.as_str().to_owned(),
            labels: b.labels.iter().map(|l| l.as_str().to_owned()).collect(),
            body: convert_body(&b.body),
        },
    }
}

/// Relies on hcl::Expression: string literals and objects are moved over
/// entry for entry; every other variant is collapsed to `Expr::Other`.
#[verifier::external_body]
fn convert_expr(e: &hcl::Expression) -> Expr {
    match e {
        hcl::Expression::String(s) => Expr::Str(s.clone()),
        hcl::Expression::Object(o) => Expr::Object(
            o.iter().map(|(k, v)| (convert_key(k), convert_expr(v))).collect(),
        ),
        _ => Expr::Other,
    }
}

/// Relies on hcl::ObjectKey: identifier keys keep their name; any other key
/// kind becomes `ObjKey::Other`.
#[verifier::external_body]
fn convert_key(k: &hcl::ObjectKey) -> ObjKey {
    match k {
        hcl::ObjectKey::Identifier(i) => ObjKey::Ident(i.as_str().to_owned()),
        _ => ObjKey::Other,
    }
}

} // verus!
