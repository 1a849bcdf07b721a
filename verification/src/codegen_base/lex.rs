//! Reading a template's source text: Rust's tokenizer gives its tokens, and the
//! template grammar reads the pairs from them.
use vstd::prelude::*;

use crate::codegen_base::pairs::Pair;
use crate::codegen_base::template::{
    parse_template, template_read_as, TemplateError, TemplateLit, TemplateToken,
};

verus! {

/// A stream of tokens of the Rust tokenizer.
#[verifier::external_type_specification]
#[verifier::external_body]
pub struct ExTokenStream(proc_macro2::TokenStream);

/// A token tree of the Rust tokenizer.
#[verifier::external_type_specification]
#[verifier::external_body]
pub struct ExTokenTree(proc_macro2::TokenTree);

/// The spacing of a punctuation token of the Rust tokenizer.
#[verifier::external_type_specification]
#[verifier::external_body]
pub struct ExSpacing(proc_macro2::Spacing);

/// A delimited group of the Rust tokenizer.
#[verifier::external_type_specification]
#[verifier::external_body]
pub struct ExGroup(proc_macro2::Group);

/// A literal token of the Rust tokenizer.
#[verifier::external_type_specification]
#[verifier::external_body]
pub struct ExLiteral(proc_macro2::Literal);

/// The tokens that Rust's tokenizer reads from `src`, each literal with its value,
/// or `None` when `src` is not a sequence of Rust tokens.
pub uninterp spec fn lexed(src: Seq<char>) -> Option<Seq<TemplateToken>>;

/// `str::parse::<proc_macro2::TokenStream>`: the tokens of `src`, each converted
/// one for one into a [`TemplateToken`]. Claimed: the result is `lexed(src)`, a
/// function of the text alone; nothing more is said of which tokens it holds.
#[verifier::external_body]
pub fn lex_template(src: &str) -> (r: Option<Vec<TemplateToken>>)
    ensures
        match r {
            Some(v) => lexed(src@) == Some(v@),
            None => lexed(src@) is None,
        },
{
    match src.parse::<proc_macro2::TokenStream>() {
        Ok(stream) => Some(convert_stream(stream)),
        Err(_) => None,
    }
}

/// The trees of a token stream, each converted into a [`TemplateToken`].
#[verifier::external_body]
fn convert_stream(stream: proc_macro2::TokenStream) -> Vec<TemplateToken> {
    let mut out = Vec::new();
    for tree in stream {
        out.push(convert_tree(tree));
    }
    out
}

/// A token tree as a [`TemplateToken`], variant by variant.
#[verifier::external_body]
fn convert_tree(tree: proc_macro2::TokenTree) -> TemplateToken {
    match tree {
        proc_macro2::TokenTree::Ident(i) => TemplateToken::Ident(i.to_string()),
        proc_macro2::TokenTree::Punct(p) => TemplateToken::Punct(p.as_char(), is_joint(p.spacing())),
        proc_macro2::TokenTree::Literal(l) => TemplateToken::Literal(convert_literal(l)),
        proc_macro2::TokenTree::Group(g) => convert_group(g),
    }
}

/// Whether a punctuation character is joined to the next one.
#[verifier::external_body]
fn is_joint(spacing: proc_macro2::Spacing) -> bool {
    match spacing {
        proc_macro2::Spacing::Joint => true,
        proc_macro2::Spacing::Alone => false,
    }
}

/// A group as a [`TemplateToken`], with its delimiter and its converted trees.
#[verifier::external_body]
fn convert_group(g: proc_macro2::Group) -> TemplateToken {
    let d = match g.delimiter() {
        proc_macro2::Delimiter::Parenthesis => crate::codegen_base::template::Delimiter::Parenthesis,
        proc_macro2::Delimiter::Brace => crate::codegen_base::template::Delimiter::Brace,
        proc_macro2::Delimiter::Bracket => crate::codegen_base::template::Delimiter::Bracket,
        proc_macro2::Delimiter::None => crate::codegen_base::template::Delimiter::Invisible,
    };
    TemplateToken::Group(d, convert_stream(g.stream()))
}

/// `syn::Lit::new`: a literal token as a [`TemplateLit`], with the value syn reads.
#[verifier::external_body]
fn convert_literal(l: proc_macro2::Literal) -> TemplateLit {
    match syn::Lit::new(l) {
        syn::Lit::Byte(v) => TemplateLit::Byte(v.value()),
        syn::Lit::Char(v) => TemplateLit::Char(v.value()),
        syn::Lit::Int(v) => TemplateLit::Int(v.base10_digits().to_string()),
        syn::Lit::Float(_) => TemplateLit::Float,
        syn::Lit::Str(v) => TemplateLit::Str(v.value()),
        _ => TemplateLit::Other,
    }
}

/// Parse the source text of a template: `None` when it is not a sequence of Rust
/// tokens, otherwise what [`parse_template`] gives for its tokens.
pub fn parse_template_source(src: &str) -> (r: Option<Result<Vec<Pair>, TemplateError>>)
    ensures
        match lexed(src@) {
            None => r is None,
            Some(toks) => r matches Some(x) && template_read_as(toks, x),
        },
{
    match lex_template(src) {
        None => None,
        Some(tokens) => Some(parse_template(tokens.as_slice())),
    }
}

} // verus!
