//! The token trees of `proc_macro2` that emitted code is made of.
//!
//! Token trees are opaque here. Each constructor below makes one tree, or hands
//! out the trees of a `syn` value, and gives what it made a name; everything that
//! puts trees together is verified over those names.
use proc_macro2::{Delimiter, Ident, Spacing, Span, TokenStream, TokenTree};
use vstd::prelude::*;

verus! {

/// One token, or a delimited group of tokens.
#[verifier::external_type_specification]
#[verifier::external_body]
pub struct ExTokenTree(proc_macro2::TokenTree);

/// A stream of token trees.
#[verifier::external_type_specification]
#[verifier::external_body]
pub struct ExTokenStream(proc_macro2::TokenStream);

/// The place in the source that a token is held to come from.
#[verifier::external_type_specification]
#[verifier::external_body]
pub struct ExSpan(proc_macro2::Span);

/// An identifier.
#[verifier::external_type_specification]
#[verifier::external_body]
pub struct ExIdent(proc_macro2::Ident);

/// The delimiters of a group.
#[verifier::external_type_specification]
pub struct ExDelimiter(proc_macro2::Delimiter);

/// Whether a punctuation character is joined to the one behind it.
#[verifier::external_type_specification]
pub struct ExSpacing(proc_macro2::Spacing);

/// Whether a character can start a word.
pub open spec fn is_word_start(ch: char) -> bool {
    ('a' <= ch && ch <= 'z') || ('A' <= ch && ch <= 'Z') || ch == '_'
}

/// Whether a character can stand inside a word.
pub open spec fn is_word_part(ch: char) -> bool {
    is_word_start(ch) || ('0' <= ch && ch <= '9')
}

/// Whether a text is a word: an ASCII letter or underscore, followed by ASCII
/// letters, digits and underscores.
pub open spec fn is_word(name: Seq<char>) -> bool {
    &&& name.len() > 0
    &&& is_word_start(name[0])
    &&& forall|i: int| 0 < i < name.len() ==> is_word_part(#[trigger] name[i])
}

/// Whether a character is one that `proc_macro2` takes for punctuation.
pub open spec fn is_punct(ch: char) -> bool {
    ch == '!' || ch == '#' || ch == '$' || ch == '%' || ch == '&' || ch == '\'' || ch == '*'
        || ch == '+' || ch == ',' || ch == '-' || ch == '.' || ch == '/' || ch == ':' || ch == ';'
        || ch == '<' || ch == '=' || ch == '>' || ch == '?' || ch == '@' || ch == '^' || ch == '|'
        || ch == '~'
}

/// The identifier token spelled `name`, at `span`.
pub uninterp spec fn word_tree(name: Seq<char>, span: Span) -> TokenTree;

/// The punctuation token `ch` with the given spacing, at `span`.
pub uninterp spec fn punct_tree(ch: char, spacing: Spacing, span: Span) -> TokenTree;

/// The string literal token whose value is `text`, at `span`.
pub uninterp spec fn string_tree(text: Seq<char>, span: Span) -> TokenTree;

/// The group of `inner` between the given delimiters, which are at `span`.
pub uninterp spec fn group_tree(
    delimiter: Delimiter,
    inner: Seq<TokenTree>,
    span: Span,
) -> TokenTree;

/// The tokens of a term.
pub uninterp spec fn expr_tokens(term: syn::Expr) -> Seq<TokenTree>;

/// The tokens of a pattern.
pub uninterp spec fn pat_tokens(pattern: syn::Pat) -> Seq<TokenTree>;

/// `Span::call_site` gives the span of the macro call that is being expanded;
/// nothing is claimed of it.
pub assume_specification[ proc_macro2::Span::call_site ]() -> (span: Span)
;

/// Makes an identifier with `Ident::new`, which panics unless `name` is a legal
/// identifier or a keyword; every word is one.
#[verifier::external_body]
pub(crate) fn word(name: &str, span: Span) -> (tree: TokenTree)
    requires
        is_word(name@),
    ensures
        tree == word_tree(name@, span),
{
    TokenTree::Ident(Ident::new(name, span))
}

/// Makes a punctuation token with `Punct::new`, which panics on any character
/// outside its list, and moves it to `span`.
#[verifier::external_body]
pub(crate) fn punct(ch: char, spacing: Spacing, span: Span) -> (tree: TokenTree)
    requires
        is_punct(ch),
    ensures
        tree == punct_tree(ch, spacing, span),
{
    let mut tree = TokenTree::Punct(proc_macro2::Punct::new(ch, spacing));
    tree.set_span(span);
    tree
}

/// Makes a string literal with `Literal::string`, which quotes and escapes
/// `text` so that it reads back as the same value, and moves it to `span`.
#[verifier::external_body]
pub(crate) fn string(text: &str, span: Span) -> (tree: TokenTree)
    ensures
        tree == string_tree(text@, span),
{
    let mut tree = TokenTree::Literal(proc_macro2::Literal::string(text));
    tree.set_span(span);
    tree
}

/// Makes a delimited group of `inner` with `Group::new` and moves its
/// delimiters to `span`.
#[verifier::external_body]
pub(crate) fn group(delimiter: Delimiter, inner: Vec<TokenTree>, span: Span) -> (tree: TokenTree)
    ensures
        tree == group_tree(delimiter, inner@, span),
{
    let inner: TokenStream = inner.into_iter().collect();
    let mut tree = TokenTree::Group(proc_macro2::Group::new(delimiter, inner));
    tree.set_span(span);
    tree
}

/// Hands out the tokens that `quote::ToTokens` gives for a term.
#[verifier::external_body]
pub(crate) fn expr_trees(term: &syn::Expr) -> (trees: Vec<TokenTree>)
    ensures
        trees@ == expr_tokens(*term),
{
    quote::ToTokens::to_token_stream(term).into_iter().collect()
}

/// Hands out the tokens that `quote::ToTokens` gives for a pattern.
#[verifier::external_body]
pub(crate) fn pat_trees(pattern: &syn::Pat) -> (trees: Vec<TokenTree>)
    ensures
        trees@ == pat_tokens(*pattern),
{
    quote::ToTokens::to_token_stream(pattern).into_iter().collect()
}

/// The tokens of an identifier that a template declares.
pub uninterp spec fn name_tokens(name: Ident) -> Seq<TokenTree>;

/// The tokens of a type.
pub uninterp spec fn type_tokens(ty: syn::Type) -> Seq<TokenTree>;

/// The tokens of generic parameters as they stand in a declaration.
pub uninterp spec fn generics_tokens(generics: syn::Generics) -> Seq<TokenTree>;

/// The tokens of generic parameters as they stand behind `impl`: with their
/// bounds, without their defaults.
pub uninterp spec fn impl_generics_tokens(generics: syn::Generics) -> Seq<TokenTree>;

/// The tokens of generic parameters as they stand behind the name of the type:
/// the names alone.
pub uninterp spec fn type_generics_tokens(generics: syn::Generics) -> Seq<TokenTree>;

/// The tokens of a `where` clause.
pub uninterp spec fn where_tokens(clause: syn::WhereClause) -> Seq<TokenTree>;

/// A token stream with trees added at its end.
pub uninterp spec fn extended(stream: TokenStream, trees: Seq<TokenTree>) -> TokenStream;

/// Hands out the tokens that `quote::ToTokens` gives for an identifier.
#[verifier::external_body]
pub(crate) fn name_trees(name: &Ident) -> (trees: Vec<TokenTree>)
    ensures
        trees@ == name_tokens(*name),
{
    quote::ToTokens::to_token_stream(name).into_iter().collect()
}

/// Hands out the tokens that `quote::ToTokens` gives for a type.
#[verifier::external_body]
pub(crate) fn type_trees(ty: &syn::Type) -> (trees: Vec<TokenTree>)
    ensures
        trees@ == type_tokens(*ty),
{
    quote::ToTokens::to_token_stream(ty).into_iter().collect()
}

/// Hands out the tokens that `quote::ToTokens` gives for generic parameters.
#[verifier::external_body]
pub(crate) fn generics_trees(generics: &syn::Generics) -> (trees: Vec<TokenTree>)
    ensures
        trees@ == generics_tokens(*generics),
{
    quote::ToTokens::to_token_stream(generics).into_iter().collect()
}

/// Hands out the tokens of the first part that `syn::Generics::split_for_impl`
/// gives: the parameters for use behind `impl`.
#[verifier::external_body]
pub(crate) fn impl_generics_trees(generics: &syn::Generics) -> (trees: Vec<TokenTree>)
    ensures
        trees@ == impl_generics_tokens(*generics),
{
    quote::ToTokens::to_token_stream(&generics.split_for_impl().0).into_iter().collect()
}

/// Hands out the tokens of the second part that `syn::Generics::split_for_impl`
/// gives: the parameters for use behind the name of the type.
#[verifier::external_body]
pub(crate) fn type_generics_trees(generics: &syn::Generics) -> (trees: Vec<TokenTree>)
    ensures
        trees@ == type_generics_tokens(*generics),
{
    quote::ToTokens::to_token_stream(&generics.split_for_impl().1).into_iter().collect()
}

/// Hands out the tokens that `quote::ToTokens` gives for a `where` clause.
#[verifier::external_body]
pub(crate) fn where_trees(clause: &syn::WhereClause) -> (trees: Vec<TokenTree>)
    ensures
        trees@ == where_tokens(*clause),
{
    quote::ToTokens::to_token_stream(clause).into_iter().collect()
}

/// Adds trees at the end of a token stream with its `Extend`.
#[verifier::external_body]
pub(crate) fn extend(stream: &mut TokenStream, trees: Vec<TokenTree>)
    ensures
        *final(stream) == extended(*old(stream), trees@),
{
    stream.extend(trees)
}

} // verus!
