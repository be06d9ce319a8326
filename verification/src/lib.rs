//! A template preprocessor: text interleaved with code blocks (`<# .. #>`),
//! output expressions (`<#= .. #>`) and meta-directives (`<#@ .. #>`) is
//! segmented into an ordered sequence of typed parts, directives are applied
//! to the engine configuration in source order, formatting whitespace around
//! blocks is normalized when enabled, and adjacent parts of one kind are
//! merged into the final sequence handed to a code generator.

use vstd::prelude::*;

pub mod codegen;
pub mod directive;
pub mod laws;
pub mod lexer;
pub mod normalize;
pub mod optimize;
pub mod parts;
pub mod strutil;

verus! {

use crate::parts::{TemplatePart, PartModel, TemplateInfo, TemplateError};
use crate::lexer::{lex, parse_all, apply_all, lemma_lex_wf};
use crate::normalize::{normalize_model, parse_postprocess};
use crate::optimize::{optimize_model, parse_optimize};

/// The full pipeline over part models: segment the text, normalize the
/// whitespace starting from the given configuration, merge and prune.
pub open spec fn transform_model(s: Seq<char>, info: TemplateInfo) -> Result<
    Seq<PartModel>,
    TemplateError,
> {
    match lex(s) {
        Err(e) => Err(e),
        Ok(segs) => Ok(optimize_model(normalize_model(segs, info))),
    }
}

/// Transform template text into its final optimized part sequence.
///
/// The configuration starts from `*info` (the caller's override) and ends, on
/// success, at its value after every directive of the template, in source
/// order. The whitespace normalizer re-derives the configuration from that
/// same starting value while it walks its windows, so a `cleanws` toggle
/// affects exactly the blocks after its own position, never retroactively.
/// A fatal error aborts the whole parse: no parts come back and the
/// configuration is handed back unchanged.
pub fn transform_template(input: &str, info: &mut TemplateInfo) -> (r: Result<
    Vec<TemplatePart>,
    TemplateError,
>)
    ensures
        match r {
            Ok(parts) => {
                &&& transform_model(input@, *old(info)) == Ok::<Seq<PartModel>, TemplateError>(
                    parts.deep_view(),
                )
                &&& lex(input@) matches Ok(segs) && *final(info) == apply_all(*old(info), segs)
            },
            Err(e) => {
                &&& transform_model(input@, *old(info)) == Err::<Seq<PartModel>, TemplateError>(e)
                &&& *final(info) == *old(info)
            },
        },
{
    let initial = *info;
    match parse_all(info, input) {
        Err(e) => Err(e),
        Ok(parts) => {
            proof {
                lemma_lex_wf(input@);
            }
            let mut parts = parts;
            let mut norm_info = initial;
            parse_postprocess(&mut norm_info, &mut parts);
            Ok(parse_optimize(parts))
        },
    }
}

} // verus!
