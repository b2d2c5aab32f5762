//! The ends of the pipeline: feeding placeholder-encoded text to the
//! structural parser, and rendering a tree back before restoration. The
//! parser and the renderer are outside services; everything around them is
//! verified.

use crate::error::Error;
use crate::preserver::model::pres_apply;
use crate::preserver::restore::restore_placeholders;
use crate::preserver::restore::restore_spec;
use crate::preserver::transform::apply_preservers;
use crate::preserver::transform::chains_seq;
use crate::preserver::Preserver;
use vstd::prelude::*;

verus! {

#[verifier::external_type_specification]
#[verifier::external_body]
pub struct ExSynFile(syn::File);

/// Whether the structural parser accepts a text. `syn::parse_file` computes
/// its result from the characters alone, so the outcome deserves a name
/// that contracts can share.
pub uninterp spec fn syn_parses(code: Seq<char>) -> bool;

/// Relies on `syn::parse_file`: whether it returns `Ok` is a function of the
/// text handed to it alone, named `syn_parses`. The parser's own diagnostic
/// is discarded here.
#[verifier::external_body]
fn parse_source(code: &str) -> (r: Option<syn::File>)
    ensures
        r.is_some() == syn_parses(code@),
{
    syn::parse_file(code).ok()
}

/// What the renderer prints for a tree. `prettyplease::unparse` computes its
/// result from the tree alone, so the text deserves a name that contracts
/// can share.
pub uninterp spec fn rendered_of(ast: syn::File) -> Seq<char>;

/// Relies on `prettyplease::unparse`: it renders the tree to source text, a
/// function of the tree alone, named `rendered_of`. The renderer is built
/// with its `verbatim` feature, so it prints every verbatim node that
/// `syn::parse_file` can produce (bodyless functions, bodyless statics,
/// macro definitions and the like); a hand-built or mutated tree carrying
/// other verbatim token streams can still make the renderer abort inside
/// this call, a limitation that no `requires` over the opaque tree type can
/// express.
#[verifier::external_body]
fn render_tree(ast: &syn::File) -> (r: String)
    ensures
        r@ == rendered_of(*ast),
{
    prettyplease::unparse(ast)
}

/// Applies the preservation directives to the source text and parses the
/// placeholder-encoded result into a tree.
///
/// Succeeds exactly when the parser accepts the encoded text; a rejection
/// means a preserved region was not a well-formed, self-balanced block, and
/// is reported as `NonPreservableCode`.
pub fn preserve_and_parse(code: &str, preservers: &[&Preserver]) -> (r: Result<syn::File, Error>)
    ensures
        r.is_ok() == syn_parses(pres_apply(code@, chains_seq(preservers@))),
        r is Err ==> r->Err_0 is NonPreservableCode,
{
    let preserved = apply_preservers(code, preservers);
    match parse_source(preserved.as_str()) {
        Some(f) => Ok(f),
        None => Err(Error::NonPreservableCode),
    }
}

/// Renders the (possibly mutated) tree back to text and strips the whole
/// placeholder encoding from it: attribute-form markers become their payload
/// lines, every dummy declaration disappears, and doc-comment marker
/// prefixes are removed. The result is the restoration of exactly what the
/// renderer prints for this tree, so two calls on one tree agree.
pub fn resolve_preserved(ast: &syn::File) -> (r: String)
    ensures
        r@ == restore_spec(rendered_of(*ast)),
{
    let code = render_tree(ast);
    restore_placeholders(code.as_str())
}

} // verus!
