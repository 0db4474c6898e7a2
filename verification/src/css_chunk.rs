//! What becomes of the CSS of one chunk.

use vstd::prelude::*;
use vstd::utf8::*;
use crate::codec;
use crate::core_json;
use crate::css_path;
use crate::css_path::{css_asset_path, file_name};
use crate::json_module;
use crate::json_read;
use crate::json_text;
use crate::json_text::json_string_literal;
use crate::path_text::PathStyle;
use crate::pattern;
use crate::pattern::{find_ranges, RE_IIFE, RE_UMD};
use crate::text_edit;
use crate::text_edit::{contains_bytes, find_from, TextEdit};

verus! {

#[derive(Debug, Clone, Copy, PartialEq, Eq, Structural)]
pub enum OutputFormat {
    Esm,
    Cjs,
    Iife,
    Umd,
}

pub open spec fn esm_or_cjs(format: OutputFormat) -> bool {
    format is Esm || format is Cjs
}

impl OutputFormat {
    pub fn is_esm(&self) -> (r: bool)
        ensures
            r == (*self is Esm),
    {
        match self {
            OutputFormat::Esm => true,
            _ => false,
        }
    }

    pub fn is_esm_or_cjs(&self) -> (r: bool)
        ensures
            r == esm_or_cjs(*self),
            r == (*self is Esm || *self is Cjs),
    {
        match self {
            OutputFormat::Esm => true,
            OutputFormat::Cjs => true,
            _ => false,
        }
    }
}

/// What decides over the CSS of a chunk.
#[derive(Debug, Clone, PartialEq, Eq)]
pub struct CssChunkFacts {
    pub format: OutputFormat,
    pub css_code_split: bool,
    pub is_client: bool,
    pub is_pure_css_chunk: bool,
    pub chunk_filename: String,
    pub chunk_name: String,
    pub is_entry: bool,
    /// Whether the facade of the chunk is a CSS request.
    pub facade_is_css: bool,
}

/// Where the CSS of a chunk goes.
#[derive(Debug, Clone, PartialEq, Eq)]
pub enum CssChunkPlace {
    /// Into an asset of its own; an entry that is nothing but CSS is recorded with it.
    Asset { name: String, is_css_entry: bool },
    /// Into the code of the chunk.
    Code,
    /// Into the bundle that all chunks share.
    Bundle,
    Nowhere,
}

#[derive(Debug, Clone, PartialEq, Eq)]
pub struct CssChunkPlan {
    /// Whether the chunk is recorded as one that is nothing but CSS.
    pub record_pure_chunk: bool,
    pub place: CssChunkPlace,
}

pub open spec fn is_legacy_chunk(filename: Seq<char>) -> bool {
    text_edit::first_from(encode_utf8(filename), encode_utf8("-legacy"@), 0) is Some
}

pub open spec fn goes_to_asset(facts: CssChunkFacts) -> bool {
    facts.css_code_split && esm_or_cjs(facts.format) && !is_legacy_chunk(facts.chunk_filename@)
}

/// Whether an asset has the name of its file alone: a JavaScript entry imports the CSS.
pub open spec fn named_by_file(facts: CssChunkFacts) -> bool {
    facts.is_entry && !facts.facade_is_css
}

/// The name of the asset for the CSS of a chunk.
pub open spec fn chunk_asset_name(facts: CssChunkFacts, style: PathStyle) -> Seq<char> {
    let path = css_path::with_css_extension(facts.chunk_name@, style);
    if named_by_file(facts) {
        css_path::last_name(path, style)
    } else {
        path
    }
}

/// Whether a chunk whose asset is named by its file names a file.
pub open spec fn has_asset_name(facts: CssChunkFacts, style: PathStyle) -> bool {
    goes_to_asset(facts) && named_by_file(facts) ==> css_path::has_file_name(
        css_path::with_css_extension(facts.chunk_name@, style),
        style,
    )
}

fn asset_takes_css(facts: &CssChunkFacts) -> (r: bool)
    ensures
        r == goes_to_asset(*facts),
{
    facts.css_code_split && facts.format.is_esm_or_cjs() && !contains_bytes(
        facts.chunk_filename.as_str().as_bytes(),
        "-legacy".as_bytes(),
    )
}

pub fn css_chunk_has_asset_name(facts: &CssChunkFacts, style: PathStyle) -> (r: bool)
    ensures
        r == has_asset_name(*facts, style),
        !r ==> facts.css_code_split && (facts.format is Esm || facts.format is Cjs)
            && facts.is_entry && !facts.facade_is_css,
{
    if !asset_takes_css(facts) || !facts.is_entry || facts.facade_is_css {
        return true;
    }
    let path: String = css_asset_path(facts.chunk_name.as_str(), style);
    file_name(path.as_str(), style).is_some()
}

/// Whether an asset is named after a chunk: by its name with the extension of CSS, and where the chunk
/// is an entry that is no CSS file itself, by the last name of that path alone.
pub open spec fn names_asset(facts: CssChunkFacts, style: PathStyle, name: Seq<char>) -> bool {
    exists|path: Seq<char>|
        (#[trigger] css_path::has_css_extension(facts.chunk_name@, style, path) || (
        !css_path::has_file_name(facts.chunk_name@, style) && path == facts.chunk_name@)) && (
        if facts.is_entry && !facts.facade_is_css {
            exists|start: int, end: int| #[trigger]
                css_path::is_last_name_at(path, style, start, end) && name == path.subrange(
                    start,
                    end,
                )
        } else {
            name == path
        })
}

proof fn lemma_asset_name(facts: CssChunkFacts, style: PathStyle)
    ensures
        names_asset(facts, style, chunk_asset_name(facts, style)),
{
    let path = css_path::with_css_extension(facts.chunk_name@, style);
    css_path::lemma_with_css_extension(facts.chunk_name@, style);
    css_path::lemma_last_name(path, style);
    let ghost known = css_path::has_css_extension(facts.chunk_name@, style, path);
    assert(css_path::is_last_name_at(
        path,
        style,
        css_path::name_start(path, style) as int,
        css_path::name_end(path, style) as int,
    ));
}

pub fn plan_css_chunk(facts: &CssChunkFacts, style: PathStyle) -> (plan: CssChunkPlan)
    requires
        has_asset_name(*facts, style),
    ensures
        plan.record_pure_chunk == (facts.is_pure_css_chunk && esm_or_cjs(facts.format)),
        match plan.place {
            CssChunkPlace::Asset { name, is_css_entry } => goes_to_asset(*facts) && name@
                == chunk_asset_name(*facts, style) && is_css_entry == (facts.is_entry
                && facts.is_pure_css_chunk),
            CssChunkPlace::Code => facts.css_code_split && !goes_to_asset(*facts)
                && facts.is_client,
            CssChunkPlace::Bundle => !facts.css_code_split,
            CssChunkPlace::Nowhere => facts.css_code_split && !goes_to_asset(*facts)
                && !facts.is_client,
        },
        plan.record_pure_chunk == (facts.is_pure_css_chunk && (facts.format is Esm
            || facts.format is Cjs)),
        plan.place is Bundle == !facts.css_code_split,
        plan.place is Asset == (facts.css_code_split && (facts.format is Esm || facts.format is Cjs)
            && forall|at: int|
            !(#[trigger] text_edit::occurs_at(
                encode_utf8(facts.chunk_filename@),
                encode_utf8("-legacy"@),
                at,
            ))),
        plan.place is Code ==> facts.is_client,
        plan.place is Nowhere ==> !facts.is_client,
        plan.place matches CssChunkPlace::Asset { name, is_css_entry } ==> is_css_entry == (
        facts.is_entry && facts.is_pure_css_chunk) && names_asset(*facts, style, name@),
{
    proof {
        lemma_asset_name(*facts, style);
        text_edit::lemma_first_from(
            encode_utf8(facts.chunk_filename@),
            encode_utf8("-legacy"@),
            0,
        );
    }
    let record_pure_chunk: bool = facts.is_pure_css_chunk && facts.format.is_esm_or_cjs();
    if !facts.css_code_split {
        return CssChunkPlan { record_pure_chunk, place: CssChunkPlace::Bundle };
    }
    if asset_takes_css(facts) {
        let path: String = css_asset_path(facts.chunk_name.as_str(), style);
        let is_css_entry: bool = facts.is_entry && facts.is_pure_css_chunk;
        if facts.is_entry && !facts.facade_is_css {
            match file_name(path.as_str(), style) {
                Some(name) => {
                    return CssChunkPlan {
                        record_pure_chunk,
                        place: CssChunkPlace::Asset { name, is_css_entry },
                    };
                },
                None => {
                    assert(false);
                },
            }
        }
        return CssChunkPlan {
            record_pure_chunk,
            place: CssChunkPlace::Asset { name: path, is_css_entry },
        };
    }
    if facts.is_client {
        CssChunkPlan { record_pure_chunk, place: CssChunkPlace::Code }
    } else {
        CssChunkPlan { record_pure_chunk, place: CssChunkPlace::Nowhere }
    }
}

#[derive(Debug, Clone, Copy, PartialEq, Eq, Structural)]
pub enum CssInjectionError {
    PointNotFound,
    UnsupportedFormat,
}

impl CssInjectionError {
    pub fn message(&self) -> (r: String)
        ensures
            r@ == match *self {
                CssInjectionError::PointNotFound => "Injection point for inlined CSS not found"@,
                CssInjectionError::UnsupportedFormat =>
                    "CJS format is not supported for CSS injection"@,
            },
    {
        match self {
            CssInjectionError::PointNotFound =>
                "Injection point for inlined CSS not found".to_string(),
            CssInjectionError::UnsupportedFormat =>
                "CJS format is not supported for CSS injection".to_string(),
        }
    }
}

/// Where code that adds CSS goes: behind the first line where that is a hashbang, else to the
/// front; in a wrapped bundle, behind the head of the function.
pub open spec fn injection_point(
    format: OutputFormat,
    code: Seq<char>,
    heads: Seq<(nat, nat)>,
) -> Result<nat, CssInjectionError> {
    let bytes = encode_utf8(code);
    match format {
        OutputFormat::Esm => if encode_utf8("#!"@).is_prefix_of(bytes) {
            match text_edit::first_from(bytes, encode_utf8("\n"@), 0) {
                Some(at) => Ok(at),
                None => Ok(0),
            }
        } else {
            Ok(0)
        },
        OutputFormat::Cjs => Err(CssInjectionError::UnsupportedFormat),
        _ => if heads.len() > 0 {
            Ok(heads[0].1)
        } else {
            Err(CssInjectionError::PointNotFound)
        },
    }
}

/// The heads of functions in a wrapped bundle.
pub open spec fn function_heads(format: OutputFormat, code: Seq<char>) -> Seq<(nat, nat)> {
    match format {
        OutputFormat::Iife => pattern::pattern_matches(RE_IIFE@, code),
        OutputFormat::Umd => pattern::pattern_matches(RE_UMD@, code),
        _ => Seq::empty(),
    }
}

/// The injection point, given the heads of functions that were found.
/// Where code that adds CSS goes: into a module at the front, or at the end of its first line where
/// that is a hashbang; into a wrapped bundle right behind the head of the function.
pub open spec fn is_injection_point(
    format: OutputFormat,
    code: Seq<u8>,
    heads: Seq<(usize, usize)>,
    point: Result<usize, CssInjectionError>,
) -> bool {
    match format {
        OutputFormat::Esm => point matches Ok(at) && if encode_utf8("#!"@).is_prefix_of(code) {
            ||| text_edit::occurs_at(code, encode_utf8("\n"@), at as int) && forall|i: int|
                0 <= i < at ==> !(#[trigger] text_edit::occurs_at(code, encode_utf8("\n"@), i))
            ||| at == 0 && forall|i: int|
                0 <= i ==> !(#[trigger] text_edit::occurs_at(code, encode_utf8("\n"@), i))
        } else {
            at == 0
        },
        OutputFormat::Cjs => point == Err::<usize, _>(CssInjectionError::UnsupportedFormat),
        _ => if heads.len() > 0 {
            point == Ok::<_, CssInjectionError>(heads[0].1)
        } else {
            point == Err::<usize, _>(CssInjectionError::PointNotFound)
        },
    }
}

pub fn css_injection_point_behind(
    format: OutputFormat,
    code: &str,
    heads: &Vec<(usize, usize)>,
) -> (r: Result<usize, CssInjectionError>)
    ensures
        match r {
            Ok(at) => injection_point(format, code@, pattern::ranges_model(heads@)) == Ok::<
                nat,
                CssInjectionError,
            >(at as nat),
            Err(error) => injection_point(format, code@, pattern::ranges_model(heads@)) == Err::<
                nat,
                CssInjectionError,
            >(error),
        },
        is_injection_point(format, encode_utf8(code@), heads@, r),
{
    proof {
        text_edit::lemma_first_from(encode_utf8(code@), encode_utf8("\n"@), 0);
    }
    match format {
        OutputFormat::Esm => {
            let bytes: &[u8] = code.as_bytes();
            if !codec::starts_with_bytes(bytes, "#!".as_bytes()) {
                return Ok(0);
            }
            match find_from(bytes, "\n".as_bytes(), 0) {
                Some(at) => Ok(at),
                None => Ok(0),
            }
        },
        OutputFormat::Cjs => Err(CssInjectionError::UnsupportedFormat),
        _ => {
            if heads.len() == 0 {
                return Err(CssInjectionError::PointNotFound);
            }
            proof {
                assert(pattern::ranges_model(heads@)[0] == (heads@[0].0 as nat, heads@[0].1 as nat));
            }
            Ok(heads[0].1)
        },
    }
}

pub fn css_injection_point(format: OutputFormat, code: &str) -> (r: Result<
    usize,
    CssInjectionError,
>)
    ensures
        match r {
            Ok(at) => injection_point(format, code@, function_heads(format, code@)) == Ok::<
                nat,
                CssInjectionError,
            >(at as nat),
            Err(error) => injection_point(format, code@, function_heads(format, code@)) == Err::<
                nat,
                CssInjectionError,
            >(error),
        },
        r matches Ok(at) ==> at <= encode_utf8(code@).len(),
        format is Iife ==> match r {
            Ok(at) => pattern::pattern_matches(RE_IIFE@, code@).len() > 0 && at
                == pattern::pattern_matches(RE_IIFE@, code@)[0].1,
            Err(error) => pattern::pattern_matches(RE_IIFE@, code@).len() == 0 && error
                is PointNotFound,
        },
        format is Umd ==> match r {
            Ok(at) => pattern::pattern_matches(RE_UMD@, code@).len() > 0 && at
                == pattern::pattern_matches(RE_UMD@, code@)[0].1,
            Err(error) => pattern::pattern_matches(RE_UMD@, code@).len() == 0 && error
                is PointNotFound,
        },
        format is Esm || format is Cjs ==> is_injection_point(
            format,
            encode_utf8(code@),
            Seq::empty(),
            r,
        ),
{
    let heads: Vec<(usize, usize)> = match format {
        OutputFormat::Iife => find_ranges(RE_IIFE, code),
        OutputFormat::Umd => find_ranges(RE_UMD, code),
        _ => Vec::new(),
    };
    proof {
        assert(pattern::ranges_model(heads@).len() == heads@.len());
        if heads@.len() > 0 {
            assert(pattern::ranges_model(heads@)[0] == (heads@[0].0 as nat, heads@[0].1 as nat));
        }
        text_edit::lemma_first_from(encode_utf8(code@), encode_utf8("\n"@), 0);
    }
    css_injection_point_behind(format, code, &heads)
}

/// The CSS as a JavaScript expression, in which the URLs of assets are still to be rendered.
pub fn css_expression(css: &str) -> (expression: String)
    ensures
        expression@ == json_text::string_literal(css@),
        json_read::read(expression@) == Some(core_json::JsonModel::Text(css@)),
{
    proof {
        let literal = core_json::JsonModel::Text(css@);
        json_read::lemma_compact_text_reads_back(literal);
        assert(json_module::compact_text(literal) == json_text::string_literal(css@));
    }
    match json_string_literal(css) {
        Some(literal) => literal,
        None => {
            assert(false);
            String::new()
        },
    }
}

/// The code that adds a style element, `css_string` being a JavaScript expression for its text.
pub open spec fn style_injection(css_string: Seq<char>) -> Seq<char> {
    "var __vite_style__ = document.createElement('style');__vite_style__.textContent = "@
        + css_string + ";document.head.appendChild(__vite_style__);"@
}

/// The edit that adds a style element at the injection point.
pub fn css_injection_edit(point: usize, css_string: &str) -> (edit: TextEdit)
    ensures
        edit.start == point,
        edit.end == point,
        edit.text@ == style_injection(css_string@),
        edit.text@
            == "var __vite_style__ = document.createElement('style');__vite_style__.textContent = "@
            + css_string@ + ";document.head.appendChild(__vite_style__);"@,
{
    let mut text: String =
        "var __vite_style__ = document.createElement('style');__vite_style__.textContent = ".to_string();
    text.push_str(css_string);
    text.push_str(";document.head.appendChild(__vite_style__);");
    TextEdit { start: point, end: point, text }
}

} // verus!
