//! The template tree that lowering consumes.
use vstd::prelude::*;

verus! {

/// A template definition: a named type with its data fields and the nodes that
/// render it.
#[derive(Debug)]
pub struct Struct {
    pub name: syn::Ident,
    pub generics: syn::Generics,
    pub where_clause: Option<syn::WhereClause>,
    pub fields: Vec<(syn::Ident, syn::Type)>,
    pub nodes: Vec<Node>,
}

/// One node of a template.
#[derive(Debug)]
pub enum Node {
    Element(Element),
    Text(Text),
    If(If),
    For(For),
}

/// A markup element: a tag with its attributes and children.
#[derive(Debug)]
pub struct Element {
    pub name: String,
    pub id: Option<syn::Expr>,
    pub classes: Vec<syn::Expr>,
    pub attributes: Vec<Attribute>,
    pub children: Vec<Node>,
    /// Whether the element is closed by an end tag after its children.
    pub close: bool,
}

/// An attribute of an element. A boolean attribute is written by its name
/// alone, and only when its value holds at run time; any other attribute is
/// always written, with its value.
#[derive(Debug)]
pub struct Attribute {
    pub name: String,
    pub value: syn::Expr,
    pub bool: bool,
}

/// Text in a template: given literally, or computed by a term.
#[derive(Debug)]
pub enum Text {
    String(String),
    Expr(syn::Expr),
}

/// A chain of tested branches with an optional default.
#[derive(Debug)]
pub struct If {
    pub clauses: Vec<IfClause>,
    pub default: Option<Vec<Node>>,
}

/// One tested branch of an `If`.
#[derive(Debug)]
pub struct IfClause {
    pub test: syn::Expr,
    pub consequent: Vec<Node>,
}

/// A loop that binds `pat` to each item of `expr` in turn.
#[derive(Debug)]
pub struct For {
    pub pat: syn::Pat,
    pub expr: syn::Expr,
    pub body: Vec<Node>,
}

} // verus!
