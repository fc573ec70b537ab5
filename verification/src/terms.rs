//! The host-language terms that a template carries, and what is read of them.
//!
//! Terms are values of `syn`. They are carried through untouched; the one thing
//! lowering asks of a term is whether it is a plain string literal.
use vstd::prelude::*;

verus! {

/// A term of the host language.
#[verifier::external_type_specification]
#[verifier::external_body]
pub struct ExExpr(syn::Expr);

/// A pattern of the host language.
#[verifier::external_type_specification]
#[verifier::external_body]
pub struct ExPat(syn::Pat);

/// A type of the host language.
#[verifier::external_type_specification]
#[verifier::external_body]
pub struct ExType(syn::Type);

/// The generic parameters of a declaration.
#[verifier::external_type_specification]
#[verifier::external_body]
pub struct ExGenerics(syn::Generics);

/// A `where` clause.
#[verifier::external_type_specification]
#[verifier::external_body]
pub struct ExWhereClause(syn::WhereClause);

/// The text that a term stands for when it is written as a plain string
/// literal, and `None` for every other term.
pub uninterp spec fn literal_text(term: syn::Expr) -> Option<Seq<char>>;

/// Tells a plain string literal from every other term and, for a literal, reads
/// its value with `syn::LitStr::value`, which undoes the quoting and the escape
/// sequences of the literal as it was written. The result depends on the term
/// alone; the contract gives it the name `literal_text`.
#[verifier::external_body]
pub(crate) fn string_literal(term: &syn::Expr) -> (value: Option<String>)
    ensures
        match value {
            Some(text) => literal_text(*term) == Some(text@),
            None => literal_text(*term) is None,
        },
{
    match term {
        syn::Expr::Lit(syn::ExprLit { lit: syn::Lit::Str(text), .. }) => Some(text.value()),
        _ => None,
    }
}

/// `Clone` of `syn::Expr` copies the whole term, spans included.
pub assume_specification[ <syn::Expr as Clone>::clone ](term: &syn::Expr) -> (copy: syn::Expr)
    ensures
        copy == *term,
;

/// `Clone` of `syn::Pat` copies the whole pattern, spans included.
pub assume_specification[ <syn::Pat as Clone>::clone ](pattern: &syn::Pat) -> (copy: syn::Pat)
    ensures
        copy == *pattern,
;

} // verus!
