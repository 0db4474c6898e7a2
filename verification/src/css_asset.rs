//! The assets that the CSS of a chunk names, and the URLs that take their place.

use vstd::prelude::*;
use vstd::utf8::*;
use crate::codec;
use crate::css_path;
use crate::css_path::{css_relative_asset_url, css_relative_public_url};
use crate::text;
use crate::text_edit;
use crate::text_edit::{apply_edits, TextEdit};

verus! {

/// A place in the CSS, from `start` up to `end`, that stands for an emitted file or for a public
/// asset.
#[derive(Debug, Clone, PartialEq, Eq)]
pub enum CssAssetItem {
    Asset { start: usize, end: usize, reference_id: String, postfix: Option<String> },
    PublicAsset { start: usize, end: usize, hash: String },
}

/// A path that is to be rendered as a URL.
#[derive(Debug, Clone, PartialEq, Eq)]
pub struct CssAssetRequest {
    pub path: String,
    pub is_public: bool,
    /// The URL where URLs are relative to the CSS.
    pub relative_url: Option<String>,
}

pub open spec fn item_start(item: CssAssetItem) -> usize {
    match item {
        CssAssetItem::Asset { start, end, reference_id, postfix } => start,
        CssAssetItem::PublicAsset { start, end, hash } => start,
    }
}

pub open spec fn item_end(item: CssAssetItem) -> usize {
    match item {
        CssAssetItem::Asset { start, end, reference_id, postfix } => end,
        CssAssetItem::PublicAsset { start, end, hash } => end,
    }
}

/// The name of an emitted file with what the URL had behind it.
pub open spec fn with_postfix(filename: Seq<char>, postfix: Option<Seq<char>>) -> Seq<char> {
    match postfix {
        Some(tail) => filename + tail,
        None => filename,
    }
}

/// The request for an emitted file: the name of the file with what the URL had behind it.
pub fn css_asset_request(filename: &str, postfix: &Option<String>, css_asset_dirname: &str) -> (r:
    CssAssetRequest)
    ensures
        r.path@ == with_postfix(filename@, codec::opt_text(*postfix)),
        postfix matches Some(end) ==> r.path@ == filename@ + end@,
        *postfix is None ==> r.path@ == filename@,
        !r.is_public,
        exists|way: Option<Seq<char>>| #[trigger]
            css_path::is_way(way, r.path@, css_asset_dirname@) && codec::opt_text(r.relative_url)
                == css_path::asset_url(way) && css_path::is_url_by(
                way,
                codec::opt_text(r.relative_url),
            ),
{
    let mut path: String = filename.to_string();
    match postfix {
        Some(tail) => {
            path.push_str(tail.as_str());
        },
        None => {},
    }
    let relative_url: Option<String> = css_relative_asset_url(path.as_str(), css_asset_dirname);
    CssAssetRequest { path, is_public: false, relative_url }
}

#[derive(Debug, Clone, Copy, PartialEq, Eq, Structural)]
pub enum PublicAssetError {
    CacheMissing,
    UnknownAsset,
}

/// The URL of a public asset: the cache has to be there, and to know the asset.
pub fn public_asset_url(cache_is_present: bool, known: Option<String>) -> (r: Result<
    String,
    PublicAssetError,
>)
    ensures
        match r {
            Ok(url) => cache_is_present && known == Some(url),
            Err(PublicAssetError::CacheMissing) => !cache_is_present,
            Err(PublicAssetError::UnknownAsset) => cache_is_present && known is None,
        },
{
    if !cache_is_present {
        return Err(PublicAssetError::CacheMissing);
    }
    match known {
        Some(url) => Ok(url),
        None => Err(PublicAssetError::UnknownAsset),
    }
}

impl PublicAssetError {
    /// The text for the error, `placeholder` being what stands in the CSS for the asset.
    pub fn message(&self, placeholder: &str) -> (r: String)
        ensures
            r@ == match *self {
                PublicAssetError::CacheMissing => "PublicAssetUrlCache missing"@,
                PublicAssetError::UnknownAsset => "Can't find the cache of "@ + placeholder@,
            },
    {
        match self {
            PublicAssetError::CacheMissing => "PublicAssetUrlCache missing".to_string(),
            PublicAssetError::UnknownAsset => {
                let mut r: String = "Can't find the cache of ".to_string();
                r.push_str(placeholder);
                r
            },
        }
    }
}

/// The request for a public asset, given its URL.
pub fn css_public_asset_request(public_url: String, root: &str, css_asset_dirname: &str) -> (r:
    CssAssetRequest)
    ensures
        r.path == public_url,
        r.is_public,
        exists|way: Option<Seq<char>>| #[trigger]
            css_path::is_way(way, root@, css_asset_dirname@) && codec::opt_text(r.relative_url)
                == css_path::public_url_behind(way, public_url@) && way is Some
                == r.relative_url is Some && (r.relative_url matches Some(url) ==> url@ == way->0
                + public_url@),
{
    let relative_url: Option<String> = css_relative_public_url(
        root,
        css_asset_dirname,
        public_url.as_str(),
    );
    CssAssetRequest { path: public_url, is_public: true, relative_url }
}

/// The edits that put the URLs in the place of the assets.
pub open spec fn asset_edits(items: Seq<CssAssetItem>, urls: Seq<String>) -> Seq<TextEdit> {
    Seq::new(
        items.len(),
        |i: int|
            TextEdit { start: item_start(items[i]), end: item_end(items[i]), text: urls[i] },
    )
}

/// The CSS with the URLs in the place of the assets, one for each; `None` where the places are
/// out of order or cut a character. CSS without assets stays as it is.
/// Whether `result` has each URL in the place of its item, and otherwise what the CSS has.
pub open spec fn has_urls(
    css: Seq<u8>,
    items: Seq<CssAssetItem>,
    urls: Seq<String>,
    result: Seq<u8>,
) -> bool {
    exists|edits: Seq<TextEdit>| #[trigger]
        text_edit::is_edited(css, edits, result) && edits.len() == items.len() && forall|i: int|
            0 <= i < items.len() ==> (#[trigger] edits[i]).text@ == urls[i]@ && match items[i] {
                CssAssetItem::Asset { start, end, reference_id, postfix } => edits[i].start == start
                    && edits[i].end == end,
                CssAssetItem::PublicAsset { start, end, hash } => edits[i].start == start
                    && edits[i].end == end,
            }
}

pub fn resolve_css_assets(css_chunk: &str, items: &Vec<CssAssetItem>, urls: &Vec<String>) -> (r:
    Option<String>)
    requires
        items@.len() == urls@.len(),
    ensures
        r is Some == (text_edit::edits_fit(
            asset_edits(items@, urls@),
            encode_utf8(css_chunk@).len(),
        ) && valid_utf8(
            text_edit::edited(encode_utf8(css_chunk@), asset_edits(items@, urls@)),
        )),
        r matches Some(css) ==> encode_utf8(css@) == text_edit::edited(
            encode_utf8(css_chunk@),
            asset_edits(items@, urls@),
        ),
        items@.len() == 0 ==> (r matches Some(css) && css@ == css_chunk@),
        r matches Some(css) ==> has_urls(
            encode_utf8(css_chunk@),
            items@,
            urls@,
            encode_utf8(css@),
        ),
{
    let mut edits: Vec<TextEdit> = Vec::new();
    let mut i: usize = 0;
    while i < items.len()
        invariant
            i <= items@.len(),
            items@.len() == urls@.len(),
            edits@ == asset_edits(items@, urls@).take(i as int),
        decreases items@.len() - i,
    {
        let (start, end): (usize, usize) = match &items[i] {
            CssAssetItem::Asset { start, end, reference_id: _, postfix: _ } => (*start, *end),
            CssAssetItem::PublicAsset { start, end, hash: _ } => (*start, *end),
        };
        edits.push(TextEdit { start, end, text: urls[i].clone() });
        i = i + 1;
        assert(edits@ =~= asset_edits(items@, urls@).take(i as int));
    }
    assert(edits@ =~= asset_edits(items@, urls@));
    let r: Option<String> = apply_edits(css_chunk, &edits);
    proof {
        if r is Some {
            assert(text_edit::is_edited(
                encode_utf8(css_chunk@),
                edits@,
                encode_utf8((r->0)@),
            ));
        }
        if items@.len() == 0 {
            encode_utf8_valid_utf8(css_chunk@);
            if r is Some {
                text::lemma_encode_injective((r->0)@, css_chunk@);
            }
        }
    }
    r
}

} // verus!
