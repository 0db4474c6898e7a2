//! The names of CSS assets.

use vstd::prelude::*;
use crate::codec;
use crate::path_text;
use crate::path_text::PathStyle;
use crate::text;
use crate::text::{chars_of, same_text};
use sugar_path::SugarPath;

verus! {

// ---------------------------------------------------------------------------------------------
// The last name of a path

/// Where the last name of a path ends: separators behind it, and `.` behind a separator, do not
/// count.
pub open spec fn name_end(path: Seq<char>, style: PathStyle) -> nat
    decreases path.len(),
{
    if path.len() == 0 {
        0
    } else if path_text::separates(path.last(), style) {
        name_end(path.drop_last(), style)
    } else if path.len() > 1 && path.last() == '.' && path_text::separates(
        path[path.len() - 2],
        style,
    ) {
        name_end(path.drop_last(), style)
    } else {
        path.len()
    }
}

/// The place behind the last separator.
pub open spec fn behind_separator(path: Seq<char>, style: PathStyle) -> nat
    decreases path.len(),
{
    if path.len() == 0 || path_text::separates(path.last(), style) {
        path.len()
    } else {
        behind_separator(path.drop_last(), style)
    }
}

pub open spec fn name_start(path: Seq<char>, style: PathStyle) -> nat {
    behind_separator(path.take(name_end(path, style) as int), style)
}

pub open spec fn last_name(path: Seq<char>, style: PathStyle) -> Seq<char> {
    path.subrange(name_start(path, style) as int, name_end(path, style) as int)
}

/// Whether the last name of a path names a file.
pub open spec fn has_file_name(path: Seq<char>, style: PathStyle) -> bool {
    let name = last_name(path, style);
    name.len() > 0 && name != "."@ && name != ".."@
}

fn find_name_end(chars: &Vec<char>, until: usize, style: PathStyle) -> (end: usize)
    requires
        until <= chars@.len(),
    ensures
        end == name_end(chars@.take(until as int), style),
        end <= until,
{
    let mut end: usize = until;
    while end > 0 && (path_text::char_separates(chars[end - 1], style) || (end > 1 && chars[end - 1]
        == '.' && path_text::char_separates(chars[end - 2], style)))
        invariant
            end <= until <= chars@.len(),
            name_end(chars@.take(until as int), style) == name_end(chars@.take(end as int), style),
        decreases end,
    {
        assert(chars@.take(end as int).drop_last() =~= chars@.take(end - 1));
        end = end - 1;
    }
    end
}

fn find_name_start(chars: &Vec<char>, end: usize, style: PathStyle) -> (start: usize)
    requires
        end <= chars@.len(),
    ensures
        start == behind_separator(chars@.take(end as int), style),
        start <= end,
{
    let mut start: usize = end;
    while start > 0 && !path_text::char_separates(chars[start - 1], style)
        invariant
            start <= end <= chars@.len(),
            behind_separator(chars@.take(end as int), style) == behind_separator(
                chars@.take(start as int),
                style,
            ),
        decreases start,
    {
        assert(chars@.take(start as int).drop_last() =~= chars@.take(start - 1));
        start = start - 1;
    }
    start
}

fn chars_text(chars: &Vec<char>, start: usize, end: usize) -> (r: String)
    requires
        start <= end <= chars@.len(),
    ensures
        r@ == chars@.subrange(start as int, end as int),
{
    let mut r: String = String::new();
    let mut i: usize = start;
    while i < end
        invariant
            start <= i <= end <= chars@.len(),
            r@ == chars@.subrange(start as int, i as int),
        decreases end - i,
    {
        r.push(chars[i]);
        assert(chars@.subrange(start as int, i + 1) =~= chars@.subrange(
            start as int,
            i as int,
        ).push(chars@[i as int]));
        i = i + 1;
    }
    r
}

/// The file that a path names, where it names one.
pub fn file_name(path: &str, style: PathStyle) -> (r: Option<String>)
    ensures
        r is Some == has_file_name(path@, style),
        r matches Some(name) ==> name@ == last_name(path@, style),
        r matches Some(name) ==> name@.len() > 0 && name@ != "."@ && name@ != ".."@ && exists|
            start: int,
            end: int,
        | #[trigger]
            is_last_name_at(path@, style, start, end) && name@ == path@.subrange(start, end),
{
    proof {
        lemma_last_name(path@, style);
    }
    let chars: Vec<char> = chars_of(path);
    assert(path@.take(path@.len() as int) =~= path@);
    let end: usize = find_name_end(&chars, chars.len(), style);
    let start: usize = find_name_start(&chars, end, style);
    let name: String = chars_text(&chars, start, end);
    if name.as_str().is_empty() || same_text(name.as_str(), ".") || same_text(name.as_str(), "..") {
        None
    } else {
        Some(name)
    }
}

/// The place of the last dot.
pub open spec fn last_dot(name: Seq<char>) -> Option<nat>
    decreases name.len(),
{
    if name.len() == 0 {
        None
    } else if name.last() == '.' {
        Some((name.len() - 1) as nat)
    } else {
        last_dot(name.drop_last())
    }
}

/// How much of a name stands before its extension. A dot at the front starts no extension.
pub open spec fn stem_len(name: Seq<char>) -> nat {
    match last_dot(name) {
        Some(at) => if at > 0 {
            at
        } else {
            name.len()
        },
        None => name.len(),
    }
}

/// The path with the extension of the file that it names replaced by `css`. A path that names no
/// file stays as it is.
pub open spec fn with_css_extension(path: Seq<char>, style: PathStyle) -> Seq<char> {
    if has_file_name(path, style) {
        path.take((name_start(path, style) + stem_len(last_name(path, style))) as int) + ".css"@
    } else {
        path
    }
}

pub fn css_asset_path(path: &str, style: PathStyle) -> (r: String)
    ensures
        r@ == with_css_extension(path@, style),
        has_file_name(path@, style) ==> has_css_extension(path@, style, r@),
        !has_file_name(path@, style) ==> r@ == path@,
{
    proof {
        lemma_with_css_extension(path@, style);
    }
    replace_extension(path, style)
}

fn replace_extension(path: &str, style: PathStyle) -> (r: String)
    ensures
        r@ == with_css_extension(path@, style),
{
    let name: String = match file_name(path, style) {
        Some(name) => name,
        None => {
            return path.to_string();
        },
    };
    let chars: Vec<char> = chars_of(path);
    assert(path@.take(path@.len() as int) =~= path@);
    let end: usize = find_name_end(&chars, chars.len(), style);
    let start: usize = find_name_start(&chars, end, style);
    let mut stem: usize = end;
    let ghost whole = name@;
    assert(whole =~= whole.take(end - start));
    while stem > start && chars[stem - 1] != '.'
        invariant
            chars@ == path@,
            start <= stem <= end <= chars@.len(),
            whole == chars@.subrange(start as int, end as int),
            last_dot(whole) == last_dot(whole.take(stem - start)),
        decreases stem - start,
    {
        proof {
            let upto = whole.take(stem - start);
            assert(upto.last() == chars@[stem - 1]);
            assert(upto.drop_last() =~= whole.take(stem - 1 - start));
        }
        stem = stem - 1;
    }
    proof {
        let upto = whole.take(stem - start);
        if stem > start {
            assert(upto.last() == chars@[stem - 1]);
        }
    }
    let keep: usize = if stem > start + 1 {
        stem - 1
    } else {
        end
    };
    let mut r: String = chars_text(&chars, 0, keep);
    assert(r@ =~= path@.take((name_start(path@, style) + stem_len(last_name(path@, style))) as int));
    r.push_str(".css");
    r
}

// ---------------------------------------------------------------------------------------------
// Directories of assets

/// The directory part of a path, as it is spelled there.
pub open spec fn parent_text(path: Seq<char>, style: PathStyle) -> Option<Seq<char>> {
    let start = name_start(path, style);
    if name_end(path, style) == 0 {
        None
    } else if start == 0 {
        Some(Seq::empty())
    } else {
        let end = name_end(path.take(start as int), style);
        if end == 0 {
            Some(path.take(1))
        } else {
            Some(path.take(end as int))
        }
    }
}

pub fn parent_path(path: &str, style: PathStyle) -> (r: Option<String>)
    ensures
        codec::opt_text(r) == parent_text(path@, style),
        match r {
            Some(parent) => is_parent_of(path@, style, parent@),
            None => forall|i: int| 0 <= i < path@.len() ==> is_filling(path@, style, i),
        },
{
    proof {
        lemma_parent_text(path@, style);
    }
    let chars: Vec<char> = chars_of(path);
    assert(path@.take(path@.len() as int) =~= path@);
    let end: usize = find_name_end(&chars, chars.len(), style);
    if end == 0 {
        return None;
    }
    let start: usize = find_name_start(&chars, end, style);
    if start == 0 {
        return Some(String::new());
    }
    let parent: usize = find_name_end(&chars, start, style);
    let keep: usize = if parent == 0 {
        1
    } else {
        parent
    };
    let r: String = chars_text(&chars, 0, keep);
    assert(r@ =~= path@.take(keep as int));
    Some(r)
}

/// One path below another, with slashes between the names.
pub open spec fn joined_directory(
    parent: Seq<char>,
    child: Seq<char>,
    style: PathStyle,
) -> Seq<char> {
    let whole = if (child.len() > 0 && path_text::separates(child[0], style)) || parent.len() == 0 {
        child
    } else if path_text::separates(parent.last(), style) {
        parent + child
    } else {
        parent.push('/') + child
    };
    slashed(whole, style)
}

/// A path with a slash for every separator.
pub open spec fn slashed(path: Seq<char>, style: PathStyle) -> Seq<char> {
    path.map_values(
        |c: char|
            if path_text::separates(c, style) {
                '/'
            } else {
                c
            },
    )
}

fn push_slashed(output: &mut String, path: &str, style: PathStyle)
    ensures
        final(output)@ == old(output)@ + slashed(path@, style),
{
    let chars: Vec<char> = chars_of(path);
    let mut i: usize = 0;
    assert(output@ =~= output@ + slashed(path@.take(0), style));
    while i < chars.len()
        invariant
            chars@ == path@,
            i <= chars@.len(),
            output@ == old(output)@ + slashed(path@.take(i as int), style),
        decreases chars@.len() - i,
    {
        if path_text::char_separates(chars[i], style) {
            output.push('/');
        } else {
            output.push(chars[i]);
        }
        proof {
            assert(path@.take(i + 1) =~= path@.take(i as int).push(path@[i as int]));
            assert(output@ =~= old(output)@ + slashed(path@.take(i + 1), style));
        }
        i = i + 1;
    }
    assert(path@.take(i as int) =~= path@);
}

/// The directory of a CSS asset, where the names of assets follow a fixed pattern.
pub open spec fn asset_directory(
    css_asset_name: Seq<char>,
    css_file_names: Seq<char>,
    assets_dir: Seq<char>,
    style: PathStyle,
) -> Seq<char> {
    let base = if css_file_names.len() == 0 {
        assets_dir
    } else {
        parent_text(css_file_names, style)->0
    };
    joined_directory(base, parent_text(css_asset_name, style)->0, style)
}

pub fn get_css_asset_dir_name(
    css_asset_name: &str,
    css_file_names: &str,
    assets_dir: &str,
    style: PathStyle,
) -> (r: Option<String>)
    ensures
        r is Some == (parent_text(css_asset_name@, style) is Some && (css_file_names@.len() == 0
            || parent_text(css_file_names@, style) is Some)),
        r matches Some(directory) ==> directory@ == asset_directory(
            css_asset_name@,
            css_file_names@,
            assets_dir@,
            style,
        ),
        r matches Some(directory) ==> is_asset_directory(
            css_asset_name@,
            css_file_names@,
            assets_dir@,
            style,
            directory@,
        ),
{
    proof {
        lemma_asset_directory(css_asset_name@, css_file_names@, assets_dir@, style);
    }
    directory_for_asset(css_asset_name, css_file_names, assets_dir, style)
}

fn directory_for_asset(
    css_asset_name: &str,
    css_file_names: &str,
    assets_dir: &str,
    style: PathStyle,
) -> (r: Option<String>)
    ensures
        r is Some == (parent_text(css_asset_name@, style) is Some && (css_file_names@.len() == 0
            || parent_text(css_file_names@, style) is Some)),
        r matches Some(directory) ==> directory@ == asset_directory(
            css_asset_name@,
            css_file_names@,
            assets_dir@,
            style,
        ),
{
    let base: String = if css_file_names.is_empty() {
        assets_dir.to_string()
    } else {
        parent_path(css_file_names, style)?
    };
    let child: String = parent_path(css_asset_name, style)?;
    let base_chars: Vec<char> = chars_of(base.as_str());
    let child_chars: Vec<char> = chars_of(child.as_str());
    let mut r: String = String::new();
    let stands_alone: bool = (child_chars.len() > 0 && path_text::char_separates(
        child_chars[0],
        style,
    )) || base_chars.len() == 0;
    if !stands_alone {
        push_slashed(&mut r, base.as_str(), style);
        if !path_text::char_separates(base_chars[base_chars.len() - 1], style) {
            r.push('/');
        }
    }
    push_slashed(&mut r, child.as_str(), style);
    assert(r@ =~= joined_directory(base@, child@, style));
    Some(r)
}

// ---------------------------------------------------------------------------------------------
// Relative paths

/// Whether a path has no `..`, backslash or colon, so that its names are the same on every platform.
pub open spec fn has_plain_names(path: Seq<char>) -> bool {
    !path.contains('\\') && !path.contains(':') && !path_text::components(path).contains(".."@)
}

/// A relative path that means the same on every platform.
pub open spec fn is_plain(path: Seq<char>) -> bool {
    has_plain_names(path) && (path.len() > 0 ==> path[0] != '/')
}

/// A path from the root on, with names that are the same on every platform.
pub open spec fn is_rooted(path: Seq<char>) -> bool {
    has_plain_names(path) && path.len() > 0 && path[0] == '/' && (path.len() > 1 ==> path[1] != '/')
}

pub open spec fn common_len(left: Seq<Seq<char>>, right: Seq<Seq<char>>) -> nat
    decreases left.len(),
{
    if left.len() == 0 || right.len() == 0 || left[0] != right[0] {
        0
    } else {
        1 + common_len(left.skip(1), right.skip(1))
    }
}

/// The names that lead from the directory `base` to `target`.
pub open spec fn steps_between(target: Seq<Seq<char>>, base: Seq<Seq<char>>) -> Seq<Seq<char>> {
    let common = common_len(target, base);
    Seq::new((base.len() - common) as nat, |i: int| ".."@) + target.skip(common as int)
}

/// Whether names in the same place are equal wherever they differ in case alone.
pub open spec fn cases_agree(left: Seq<Seq<char>>, right: Seq<Seq<char>>) -> bool {
    forall|i: int|
        0 <= i < left.len() && i < right.len() && path_text::lowered(left[i])
            == path_text::lowered(right[i]) ==> #[trigger] left[i] == right[i]
}

/// Whether no name of the one differs from a name of the other in case alone.
pub open spec fn no_case_twins(left: Seq<Seq<char>>, right: Seq<Seq<char>>) -> bool {
    forall|i: int, j: int|
        0 <= i < left.len() && 0 <= j < right.len() && path_text::lowered(#[trigger] left[i])
            == path_text::lowered(#[trigger] right[j]) ==> left[i] == right[j]
}

/// The way from the directory `base` to `target`, with slashes.
pub open spec fn way_text(target: Seq<Seq<char>>, base: Seq<Seq<char>>) -> Seq<char> {
    text::joined(steps_between(target, base), '/')
}

/// Whether this is the way from `base` to `target`. Where both are relative, or both start at the
/// root, it is put together from their names. Where only `target` starts at the root, `base` lies
/// below the working directory, and the way may be missing.
pub open spec fn is_way(way: Option<Seq<char>>, target: Seq<char>, base: Seq<char>) -> bool {
    let to = path_text::components(target);
    let from = path_text::components(base);
    &&& ((is_plain(target) && is_plain(base)) || (is_rooted(target) && is_rooted(base)))
        && cases_agree(to, from) ==> way == Some(way_text(to, from))
    &&& is_rooted(target) && is_plain(base) && no_case_twins(to, from) && way is Some
        ==> exists|cwd: Seq<Seq<char>>| way == Some(#[trigger] way_text(to, cwd + from))
}

/// `SugarPath::try_relative` and `SugarPath::to_slash_lossy`: the way that leads from `base` to
/// `target`, with slashes. It is missing only where the working directory is needed and cannot be
/// had. Of a `target` that is relative where `base` starts at the root, and of paths with `..`,
/// backslashes or colons, nothing is said: there the way may depend on the names in the working
/// directory and on the platform.
#[verifier::external_body]
fn relative_slash_path(target: &str, base: &str) -> (r: Option<String>)
    ensures
        is_way(codec::opt_text(r), target@, base@),
{
    let relative = target.try_relative(base).ok()?;
    Some(relative.to_slash_lossy().into_owned())
}

/// A relative path as a URL: it starts with a dot.
pub open spec fn dotted(relative: Seq<char>) -> Seq<char> {
    if relative.len() > 0 && relative[0] == '.' {
        relative
    } else {
        "./"@ + relative
    }
}

pub fn dotted_relative_path(relative: &str) -> (r: String)
    ensures
        r@ == dotted(relative@),
        r@.len() > 0 && r@[0] == '.',
        relative@.len() > 0 && relative@[0] == '.' ==> r@ == relative@,
        relative@.len() == 0 || relative@[0] != '.' ==> r@ == seq!['.', '/'] + relative@,
{
    proof {
        reveal_strlit("./");
        assert("./"@ =~= seq!['.', '/']);
    }
    let chars: Vec<char> = chars_of(relative);
    if chars.len() > 0 && chars[0] == '.' {
        return relative.to_string();
    }
    let mut r: String = "./".to_string();
    r.push_str(relative);
    r
}

/// The URL of a file, given the way to it.
pub open spec fn asset_url(way: Option<Seq<char>>) -> Option<Seq<char>> {
    match way {
        Some(relative) => Some(dotted(relative)),
        None => None,
    }
}

/// Whether a URL goes a way: it is the way itself, or the way from the directory where the way has no
/// dot in front; without a way there is none.
pub open spec fn is_url_by(way: Option<Seq<char>>, url: Option<Seq<char>>) -> bool {
    &&& way is Some == url is Some
    &&& url matches Some(text) ==> text.len() > 0 && text[0] == '.' && (text == way->0 || (text
        == seq!['.', '/'] + way->0 && !(way->0.len() > 0 && way->0[0] == '.')))
}

/// The URL of a file, seen from the directory of the CSS that names it.
pub fn css_relative_asset_url(filename: &str, css_asset_dirname: &str) -> (r: Option<String>)
    ensures
        exists|way: Option<Seq<char>>| #[trigger]
            is_way(way, filename@, css_asset_dirname@) && codec::opt_text(r) == asset_url(way)
                && is_url_by(way, codec::opt_text(r)),
{
    match relative_slash_path(filename, css_asset_dirname) {
        Some(relative) => {
            assert(is_way(Some(relative@), filename@, css_asset_dirname@));
            Some(dotted_relative_path(relative.as_str()))
        },
        None => {
            assert(is_way(None, filename@, css_asset_dirname@));
            None
        },
    }
}

/// The URL of a public file, given the way to the root that it lies below.
pub open spec fn public_url_behind(way: Option<Seq<char>>, public_url: Seq<char>) -> Option<
    Seq<char>,
> {
    match way {
        Some(relative) => Some(relative + public_url),
        None => None,
    }
}

/// The URL of a public file, seen from the directory of the CSS that names it: the way to the
/// root, and the URL below the root.
pub fn css_relative_public_url(root: &str, css_asset_dirname: &str, public_url: &str) -> (r: Option<
    String,
>)
    ensures
        exists|way: Option<Seq<char>>| #[trigger]
            is_way(way, root@, css_asset_dirname@) && codec::opt_text(r) == public_url_behind(
                way,
                public_url@,
            ) && way is Some == r is Some && (r matches Some(url) ==> url@ == way->0 + public_url@),
{
    match relative_slash_path(root, css_asset_dirname) {
        Some(relative) => {
            assert(is_way(Some(relative@), root@, css_asset_dirname@));
            let mut url: String = relative;
            url.push_str(public_url);
            Some(url)
        },
        None => {
            assert(is_way(None, root@, css_asset_dirname@));
            None
        },
    }
}

// ---------------------------------------------------------------------------------------------
// What the parts of a path are

/// Whether the last name of a path stands from `start` up to `end`: it holds no separator, it starts
/// the path or follows a separator, and behind it come only separators, and dots that stand for the
/// directory itself.
pub open spec fn is_last_name_at(path: Seq<char>, style: PathStyle, start: int, end: int) -> bool {
    &&& 0 <= start <= end <= path.len()
    &&& forall|i: int| start <= i < end ==> !path_text::separates(#[trigger] path[i], style)
    &&& start > 0 ==> path_text::separates(path[start - 1], style)
    &&& forall|i: int| end <= i < path.len() ==> is_filling(path, style, i)
    &&& end > 0 ==> !is_filling(path, style, end - 1)
}

/// A separator, or a dot behind one.
pub open spec fn is_filling(path: Seq<char>, style: PathStyle, i: int) -> bool {
    path_text::separates(path[i], style) || (path[i] == '.' && i > 0 && path_text::separates(
        path[i - 1],
        style,
    ))
}

proof fn lemma_name_end(path: Seq<char>, style: PathStyle)
    ensures
        name_end(path, style) <= path.len(),
        forall|i: int| name_end(path, style) <= i < path.len() ==> is_filling(path, style, i),
        name_end(path, style) > 0 ==> !is_filling(path, style, name_end(path, style) - 1),
    decreases path.len(),
{
    if path.len() > 0 && is_filling(path, style, path.len() - 1) {
        let front = path.drop_last();
        lemma_name_end(front, style);
        let end = name_end(path, style);
        assert forall|i: int| end <= i < path.len() implies is_filling(path, style, i) by {
            if i < front.len() {
                assert(is_filling(front, style, i));
                assert(front[i] == path[i]);
                if i > 0 {
                    assert(front[i - 1] == path[i - 1]);
                }
            }
        }
        if end > 0 {
            assert(front[end - 1] == path[end - 1]);
            if end > 1 {
                assert(front[end - 2] == path[end - 2]);
            }
        }
    }
}

proof fn lemma_behind_separator(path: Seq<char>, style: PathStyle)
    ensures
        behind_separator(path, style) <= path.len(),
        forall|i: int|
            behind_separator(path, style) <= i < path.len() ==> !path_text::separates(
                #[trigger] path[i],
                style,
            ),
        behind_separator(path, style) > 0 ==> path_text::separates(
            path[behind_separator(path, style) - 1],
            style,
        ),
    decreases path.len(),
{
    if path.len() > 0 && !path_text::separates(path.last(), style) {
        lemma_behind_separator(path.drop_last(), style);
        assert forall|i: int|
            behind_separator(path, style) <= i < path.len() implies !path_text::separates(
            #[trigger] path[i],
            style,
        ) by {
            if i < path.len() - 1 {
                assert(path.drop_last()[i] == path[i]);
            }
        }
    }
}

/// The last name of a path stands where it starts and ends.
pub proof fn lemma_last_name(path: Seq<char>, style: PathStyle)
    ensures
        is_last_name_at(
            path,
            style,
            name_start(path, style) as int,
            name_end(path, style) as int,
        ),
{
    lemma_name_end(path, style);
    let end = name_end(path, style) as int;
    let front = path.take(end);
    lemma_behind_separator(front, style);
    assert forall|i: int| name_start(path, style) <= i < end implies !path_text::separates(
        #[trigger] path[i],
        style,
    ) by {
        assert(front[i] == path[i]);
    }
}

/// There is one place where the last name of a path can stand.
pub proof fn lemma_one_last_name(
    path: Seq<char>,
    style: PathStyle,
    start: int,
    end: int,
    other_start: int,
    other_end: int,
)
    requires
        is_last_name_at(path, style, start, end),
        is_last_name_at(path, style, other_start, other_end),
    ensures
        start == other_start,
        end == other_end,
{
    if end < other_end {
        assert(is_filling(path, style, other_end - 1));
    } else if other_end < end {
        assert(is_filling(path, style, end - 1));
    }
    if start < other_start {
        assert(!path_text::separates(path[other_start - 1], style));
    } else if other_start < start {
        assert(!path_text::separates(path[start - 1], style));
    }
}

/// Whether `named` is the path with a `.css` extension: up to the last dot of its last name, where the
/// name does not start with that dot, or else up to the end of the name.
pub open spec fn has_css_extension(path: Seq<char>, style: PathStyle, named: Seq<char>) -> bool {
    exists|start: int, end: int, stem: int|
        #![trigger is_last_name_at(path, style, start, end), path.take(stem)]
        is_last_name_at(path, style, start, end) && named == path.take(stem) + ".css"@ && (forall|
            i: int,
        |
            stem < i < end ==> #[trigger] path[i] != '.') && ((start < stem < end && path[stem]
            == '.') || (stem == end && forall|i: int| start < i < end ==> #[trigger] path[i] != '.'))
}

proof fn lemma_last_dot(name: Seq<char>)
    ensures
        match last_dot(name) {
            Some(at) => at < name.len() && name[at as int] == '.' && forall|i: int|
                at < i < name.len() ==> #[trigger] name[i] != '.',
            None => forall|i: int| 0 <= i < name.len() ==> #[trigger] name[i] != '.',
        },
    decreases name.len(),
{
    if name.len() > 0 && name.last() != '.' {
        let front = name.drop_last();
        lemma_last_dot(front);
        match last_dot(name) {
            Some(at) => {
                assert forall|i: int| at < i < name.len() implies #[trigger] name[i] != '.' by {
                    if i < front.len() {
                        assert(front[i] == name[i]);
                    }
                }
            },
            None => {
                assert forall|i: int| 0 <= i < name.len() implies #[trigger] name[i] != '.' by {
                    if i < front.len() {
                        assert(front[i] == name[i]);
                    }
                }
            },
        }
    }
}

/// A path with a file name gets the extension, another one stays as it is.
pub proof fn lemma_with_css_extension(path: Seq<char>, style: PathStyle)
    ensures
        has_file_name(path, style) ==> has_css_extension(
            path,
            style,
            with_css_extension(path, style),
        ),
        !has_file_name(path, style) ==> with_css_extension(path, style) == path,
{
    if has_file_name(path, style) {
        lemma_last_name(path, style);
        let start = name_start(path, style) as int;
        let end = name_end(path, style) as int;
        let name = last_name(path, style);
        lemma_last_dot(name);
        let stem = start + stem_len(name);
        assert forall|i: int| stem < i < end implies #[trigger] path[i] != '.' by {
            assert(name[i - start] == path[i]);
        }
        if stem < end {
            assert(name[stem - start] == path[stem]);
        } else {
            assert forall|i: int| start < i < end implies #[trigger] path[i] != '.' by {
                assert(name[i - start] == path[i]);
            }
        }
        assert(is_last_name_at(path, style, start, end));
        assert(with_css_extension(path, style) == path.take(stem) + ".css"@);
    }
}

/// Whether `parent` is what stands before the last name of a path, without the separators between
/// them; of a name right below the root it is the root.
pub open spec fn is_parent_of(path: Seq<char>, style: PathStyle, parent: Seq<char>) -> bool {
    exists|start: int, end: int| #[trigger]
        is_last_name_at(path, style, start, end) && end > 0 && parent.is_prefix_of(path)
            && parent.len() <= start && (forall|i: int|
            parent.len() <= i < start ==> #[trigger] is_filling(path, style, i)) && (parent.len() > 1
            ==> !is_filling(path, style, parent.len() - 1)) && (parent.len() == 0 ==> start == 0)
}

/// A path has a parent exactly where it has anything but separators, and dots behind them.
pub proof fn lemma_parent_text(path: Seq<char>, style: PathStyle)
    ensures
        match parent_text(path, style) {
            Some(parent) => is_parent_of(path, style, parent),
            None => forall|i: int| 0 <= i < path.len() ==> is_filling(path, style, i),
        },
{
    lemma_last_name(path, style);
    lemma_name_end(path, style);
    let start = name_start(path, style) as int;
    let end = name_end(path, style) as int;
    if let Some(parent) = parent_text(path, style) {
        let front = path.take(start);
        lemma_name_end(front, style);
        assert(path.subrange(0, parent.len() as int) =~= parent);
        assert forall|i: int| parent.len() <= i < start implies #[trigger] is_filling(
            path,
            style,
            i,
        ) by {
            assert(is_filling(front, style, i));
            assert(front[i] == path[i]);
            if i > 0 {
                assert(front[i - 1] == path[i - 1]);
            }
        }
        if parent.len() > 1 {
            let last = parent.len() - 1;
            assert(!is_filling(front, style, last));
            assert(front[last] == path[last]);
            assert(front[last - 1] == path[last - 1]);
        }
        assert(is_last_name_at(path, style, start, end));
    }
}

/// Where steps lead from a directory: `..` leads up, a name leads down.
pub open spec fn walked(base: Seq<Seq<char>>, steps: Seq<Seq<char>>) -> Seq<Seq<char>>
    decreases steps.len(),
{
    if steps.len() == 0 {
        base
    } else if steps[0] == ".."@ {
        walked(base.drop_last(), steps.skip(1))
    } else {
        walked(base.push(steps[0]), steps.skip(1))
    }
}

proof fn lemma_common_len(left: Seq<Seq<char>>, right: Seq<Seq<char>>)
    ensures
        common_len(left, right) <= left.len(),
        common_len(left, right) <= right.len(),
        forall|i: int| 0 <= i < common_len(left, right) ==> #[trigger] left[i] == right[i],
        common_len(left, right) < left.len() && common_len(left, right) < right.len() ==> left[common_len(
            left,
            right,
        ) as int] != right[common_len(left, right) as int],
    decreases left.len(),
{
    if left.len() > 0 && right.len() > 0 && left[0] == right[0] {
        lemma_common_len(left.skip(1), right.skip(1));
        let common = common_len(left.skip(1), right.skip(1));
        assert forall|i: int| 0 <= i < common + 1 implies #[trigger] left[i] == right[i] by {
            if i > 0 {
                assert(left.skip(1)[i - 1] == right.skip(1)[i - 1]);
            }
        }
        if common + 1 < left.len() && common + 1 < right.len() {
            assert(left.skip(1)[common as int] != right.skip(1)[common as int]);
        }
    }
}

proof fn lemma_walk_down(base: Seq<Seq<char>>, names: Seq<Seq<char>>)
    requires
        !names.contains(".."@),
    ensures
        walked(base, names) == base + names,
    decreases names.len(),
{
    if names.len() == 0 {
        assert(base + names =~= base);
    } else {
        assert(names.contains(names[0]));
        assert(!names.skip(1).contains(".."@)) by {
            if names.skip(1).contains(".."@) {
                let i = choose|i: int| 0 <= i < names.skip(1).len() && names.skip(1)[i] == ".."@;
                assert(names[i + 1] == ".."@);
            }
        }
        lemma_walk_down(base.push(names[0]), names.skip(1));
        assert(base.push(names[0]) + names.skip(1) =~= base + names);
    }
}

proof fn lemma_walk_up(base: Seq<Seq<char>>, up: nat, names: Seq<Seq<char>>)
    requires
        up <= base.len(),
        !names.contains(".."@),
    ensures
        walked(base, Seq::new(up, |i: int| ".."@) + names) == base.take(base.len() - up) + names,
    decreases up,
{
    let steps = Seq::new(up, |i: int| ".."@) + names;
    if up == 0 {
        assert(steps =~= names);
        lemma_walk_down(base, names);
        assert(base.take(base.len() as int) =~= base);
    } else {
        let less = (up - 1) as nat;
        assert(steps[0] == ".."@);
        assert(steps.skip(1) =~= Seq::new(less, |i: int| ".."@) + names);
        lemma_walk_up(base.drop_last(), less, names);
        assert(base.drop_last().take(base.len() - 1 - less) =~= base.take(base.len() - up));
    }
}

/// The steps between two directories lead from the one to the other, and go up no further than they
/// have to.
pub proof fn lemma_steps_lead_to_target(target: Seq<Seq<char>>, base: Seq<Seq<char>>)
    requires
        !target.contains(".."@),
    ensures
        walked(base, steps_between(target, base)) == target,
        forall|n: int|
            0 <= n <= target.len() && n <= base.len() && #[trigger] target.take(n) == base.take(n)
                ==> steps_between(target, base).len() <= target.len() + base.len() - 2 * n,
{
    let common = common_len(target, base);
    lemma_common_len(target, base);
    let names = target.skip(common as int);
    assert(!names.contains(".."@)) by {
        if names.contains(".."@) {
            let i = choose|i: int| 0 <= i < names.len() && names[i] == ".."@;
            assert(target[i + common] == ".."@);
        }
    }
    lemma_walk_up(base, (base.len() - common) as nat, names);
    assert(base.take(common as int) =~= target.take(common as int));
    assert(target.take(common as int) + names =~= target);
    assert forall|n: int|
        0 <= n <= target.len() && n <= base.len() && #[trigger] target.take(n) == base.take(
            n,
        ) implies steps_between(target, base).len() <= target.len() + base.len() - 2 * n by {
        if common < n {
            assert(target.take(n)[common as int] == base.take(n)[common as int]);
        }
    }
}

/// Whether a directory is where an asset goes: the directory of its name, below the directory of the
/// file names or else below the one for assets, all with slashes. A directory from the root on stands
/// alone.
pub open spec fn is_asset_directory(
    css_asset_name: Seq<char>,
    css_file_names: Seq<char>,
    assets_dir: Seq<char>,
    style: PathStyle,
    directory: Seq<char>,
) -> bool {
    exists|base: Seq<char>, child: Seq<char>|
        {
            &&& #[trigger] is_parent_of(css_asset_name, style, child)
            &&& css_file_names.len() == 0 ==> base == assets_dir
            &&& css_file_names.len() > 0 ==> is_parent_of(css_file_names, style, base)
            &&& directory == path_text::with_slashes(
                #[trigger] below_directory(base, child, style),
                style,
            )
        }
}

/// One path below another.
pub open spec fn below_directory(base: Seq<char>, child: Seq<char>, style: PathStyle) -> Seq<char> {
    if base.len() == 0 || (child.len() > 0 && path_text::separates(child[0], style)) {
        child
    } else if path_text::separates(base.last(), style) {
        base + child
    } else {
        base + seq!['/'] + child
    }
}

proof fn lemma_asset_directory(
    css_asset_name: Seq<char>,
    css_file_names: Seq<char>,
    assets_dir: Seq<char>,
    style: PathStyle,
)
    ensures
        parent_text(css_asset_name, style) is Some && (css_file_names.len() == 0 || parent_text(
            css_file_names,
            style,
        ) is Some) ==> is_asset_directory(
            css_asset_name,
            css_file_names,
            assets_dir,
            style,
            asset_directory(css_asset_name, css_file_names, assets_dir, style),
        ),
{
    lemma_parent_text(css_asset_name, style);
    lemma_parent_text(css_file_names, style);
    if parent_text(css_asset_name, style) is Some && (css_file_names.len() == 0 || parent_text(
        css_file_names,
        style,
    ) is Some) {
        let base = if css_file_names.len() == 0 {
            assets_dir
        } else {
            parent_text(css_file_names, style)->0
        };
        let child = parent_text(css_asset_name, style)->0;
        assert(is_parent_of(css_asset_name, style, child));
        assert(asset_directory(css_asset_name, css_file_names, assets_dir, style)
            =~= path_text::with_slashes(below_directory(base, child, style), style));
    }
}

} // verus!
