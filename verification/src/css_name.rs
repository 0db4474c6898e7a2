//! The name of a CSS bundle: from the options, or from the nearest `package.json`.
//!
//! The name that a large `package.json` gives is kept in the machine cache.

use vstd::prelude::*;
use vstd::utf8::*;
use crate::codec;
use crate::codec::{read_u32, starts_with_bytes, write_bytes, write_u32};
use crate::digest;
use crate::directory;
use crate::directory::{split_absolute_path, Directory};
use crate::machine_cache;
use crate::machine_cache::{DxMachineCacheConfig, DxMachineCacheHit, DxMachineCachePaths,
    DxMachineCacheStatus, MachineCacheFiles};
use crate::machine_write;
use crate::machine_write::MachineArtifactWrite;
use crate::path_text;
use crate::path_text::{machine_source_path, native_path_components, paths_are_equal, PathStyle};
use crate::text::{byte_len, chars_of, utf8_text};

verus! {

pub const DEFAULT_CSS_BUNDLE_NAME: &'static str = "style.css";

pub const CSS_PACKAGE_NAME_CACHE_NAMESPACE: &'static str = "package_json_css_name";

pub const CSS_PACKAGE_NAME_MACHINE_HEADER_LEN: usize = 16;

pub const CSS_PACKAGE_NAME_MACHINE_MIN_SOURCE_BYTES: usize = 16384;

// ---------------------------------------------------------------------------------------------
// The payload

/// `RDXCSSN1` and four zero bytes.
pub open spec fn payload_prefix() -> Seq<u8> {
    seq![0x52u8, 0x44, 0x58, 0x43, 0x53, 0x53, 0x4e, 0x31, 0, 0, 0, 0]
}

/// The prefix, the length of the name in four bytes, and the name.
pub open spec fn encoded_payload(name: Seq<char>) -> Seq<u8> {
    payload_prefix() + codec::encoded_text(name)
}

/// The name that a payload holds, where it is a payload and ends with the name.
pub open spec fn decoded_payload(bytes: Seq<u8>) -> Option<Seq<char>> {
    if !payload_prefix().is_prefix_of(bytes) {
        None
    } else {
        match codec::u32_at(bytes.skip(12)) {
            Some((len, rest)) => if len == rest.len() && valid_utf8(rest) {
                Some(decode_utf8(rest))
            } else {
                None
            },
            None => None,
        }
    }
}

fn prefix_bytes() -> (bytes: [u8; 12])
    ensures
        bytes@ == payload_prefix(),
{
    let bytes: [u8; 12] = [0x52, 0x44, 0x58, 0x43, 0x53, 0x53, 0x4e, 0x31, 0, 0, 0, 0];
    assert(bytes@ =~= payload_prefix());
    bytes
}

pub fn encode_css_package_name_machine_payload(name: &str) -> (r: Option<Vec<u8>>)
    ensures
        r is Some == (encode_utf8(name@).len() <= u32::MAX),
        r matches Some(bytes) ==> bytes@ == encoded_payload(name@),
{
    let len: usize = byte_len(name);
    if len as u64 > u32::MAX as u64 {
        return None;
    }
    let mut bytes: Vec<u8> = Vec::with_capacity(
        CSS_PACKAGE_NAME_MACHINE_HEADER_LEN.saturating_add(len),
    );
    write_bytes(&mut bytes, prefix_bytes().as_slice());
    write_u32(&mut bytes, len as u32);
    write_bytes(&mut bytes, name.as_bytes());
    assert(bytes@ =~= encoded_payload(name@));
    Some(bytes)
}

pub fn decode_css_package_name_machine_payload(machine_bytes: &[u8]) -> (r: Option<String>)
    ensures
        codec::opt_text(r) == decoded_payload(machine_bytes@),
{
    if !starts_with_bytes(machine_bytes, prefix_bytes().as_slice()) {
        return None;
    }
    let mut cursor: usize = 12;
    let len: u32 = read_u32(machine_bytes, &mut cursor)?;
    let end: usize = machine_bytes.len();
    if len as u64 != (end - cursor) as u64 {
        return None;
    }
    let name: &[u8] = &machine_bytes[cursor..end];
    assert(name@ =~= machine_bytes@.skip(cursor as int));
    utf8_text(name)
}

/// A name is read back from its payload.
pub proof fn lemma_payload_round_trip(name: Seq<char>)
    requires
        encode_utf8(name).len() <= u32::MAX,
    ensures
        decoded_payload(encoded_payload(name)) == Some(name),
{
    let bytes = encoded_payload(name);
    assert(payload_prefix() =~= bytes.subrange(0, 12));
    let body = encode_utf8(name);
    assert(bytes.skip(12) =~= codec::le32(body.len()) + body);
    codec::lemma_u32_round_trip(body.len(), body);
    encode_utf8_valid_utf8(name);
    encode_utf8_decode_utf8(name);
}

// ---------------------------------------------------------------------------------------------
// The name that a package gives

/// What the parser finds in a `package.json`: an object with or without a name, or something
/// else.
#[derive(Debug, Clone, PartialEq, Eq)]
pub enum CssPackageNameRoot {
    Object(Option<String>),
    Other,
}

#[derive(Debug, Clone, Copy, PartialEq, Eq, Structural)]
pub enum CssPackageNameError {
    MissingName,
}

impl CssPackageNameError {
    pub fn message(&self) -> (r: String)
        ensures
            r@
                == "Name in package.json is required if option 'build.lib.cssFileName' is not provided."@,
    {
        "Name in package.json is required if option 'build.lib.cssFileName' is not provided.".to_string()
    }
}

/// The characters behind the first slash, where there is one.
pub open spec fn behind_slash(name: Seq<char>) -> Option<Seq<char>>
    decreases name.len(),
{
    if name.len() == 0 {
        None
    } else if name[0] == '/' {
        Some(name.skip(1))
    } else {
        behind_slash(name.skip(1))
    }
}

/// A scoped name without its scope; every other name as it is.
pub open spec fn bundle_base_name(name: Seq<char>) -> Seq<char> {
    if name.len() > 0 && name[0] == '@' {
        match behind_slash(name) {
            Some(rest) => rest,
            None => name,
        }
    } else {
        name
    }
}

/// Whether this is a package name without its scope: of `@scope/name` what follows the first slash, of
/// another name the name.
pub open spec fn is_base_name(name: Seq<char>, base: Seq<char>) -> bool {
    if name.len() > 0 && name[0] == '@' && name.contains('/') {
        exists|at: int|
            0 <= at < name.len() && #[trigger] name[at] == '/' && (forall|i: int|
                0 <= i < at ==> #[trigger] name[i] != '/') && base == name.skip(at + 1)
    } else {
        base == name
    }
}

proof fn lemma_behind_slash(name: Seq<char>)
    ensures
        match behind_slash(name) {
            Some(rest) => exists|at: int|
                0 <= at < name.len() && #[trigger] name[at] == '/' && (forall|i: int|
                    0 <= i < at ==> #[trigger] name[i] != '/') && rest == name.skip(at + 1),
            None => !name.contains('/'),
        },
    decreases name.len(),
{
    if name.len() > 0 && name[0] != '/' {
        let tail = name.skip(1);
        lemma_behind_slash(tail);
        match behind_slash(name) {
            Some(rest) => {
                let at = choose|at: int|
                    0 <= at < tail.len() && #[trigger] tail[at] == '/' && (forall|i: int|
                        0 <= i < at ==> #[trigger] tail[i] != '/') && rest == tail.skip(at + 1);
                assert(name[at + 1] == '/');
                assert forall|i: int| 0 <= i < at + 1 implies #[trigger] name[i] != '/' by {
                    if i > 0 {
                        assert(tail[i - 1] == name[i]);
                    }
                }
                assert(tail.skip(at + 1) =~= name.skip(at + 2));
            },
            None => {
                if name.contains('/') {
                    let i = choose|i: int| 0 <= i < name.len() && name[i] == '/';
                    assert(tail[i - 1] == '/');
                }
            },
        }
    } else if name.len() > 0 {
        assert(name[0] == '/');
    }
}

/// The name that a bundle gets from a package has no scope.
pub proof fn lemma_base_name(name: Seq<char>)
    ensures
        is_base_name(name, bundle_base_name(name)),
{
    lemma_behind_slash(name);
    if behind_slash(name) is Some {
        let at = choose|at: int|
            0 <= at < name.len() && #[trigger] name[at] == '/' && (forall|i: int|
                0 <= i < at ==> #[trigger] name[i] != '/') && behind_slash(name)->0 == name.skip(
                at + 1,
            );
        assert(name.contains('/'));
    }
}

pub fn normalize_css_package_name_for_bundle(name: &str) -> (r: String)
    ensures
        r@ == bundle_base_name(name@),
        is_base_name(name@, r@),
{
    proof {
        lemma_base_name(name@);
    }
    let chars: Vec<char> = chars_of(name);
    if chars.len() == 0 || chars[0] != '@' {
        return name.to_string();
    }
    let mut i: usize = 0;
    assert(name@.skip(0) =~= name@);
    while i < chars.len() && chars[i] != '/'
        invariant
            chars@ == name@,
            i <= chars.len(),
            behind_slash(name@) == behind_slash(name@.skip(i as int)),
        decreases chars.len() - i,
    {
        assert(name@.skip(i as int).skip(1) =~= name@.skip(i + 1));
        i = i + 1;
    }
    if i == chars.len() {
        return name.to_string();
    }
    assert(name@.skip(i as int).skip(1) =~= name@.skip(i + 1));
    let mut rest: String = String::new();
    let mut j: usize = i + 1;
    while j < chars.len()
        invariant
            chars@ == name@,
            i < j <= chars.len(),
            rest@ == name@.subrange(i + 1, j as int),
        decreases chars.len() - j,
    {
        rest.push(chars[j]);
        assert(name@.subrange(i + 1, j + 1) =~= name@.subrange(i + 1, j as int).push(
            name@[j as int],
        ));
        j = j + 1;
    }
    assert(name@.subrange(i + 1, j as int) =~= name@.skip(i + 1));
    rest
}

/// The name that a parsed `package.json` gives: none where it is no object, an error where the
/// object has no name.
pub fn parse_css_package_name_for_bundle(root: &CssPackageNameRoot) -> (r: Result<
    Option<String>,
    CssPackageNameError,
>)
    ensures
        match *root {
            CssPackageNameRoot::Other => r == Ok::<Option<String>, CssPackageNameError>(None),
            CssPackageNameRoot::Object(None) => r is Err,
            CssPackageNameRoot::Object(Some(name)) => r matches Ok(Some(base)) && base@
                == bundle_base_name(name@) && is_base_name(name@, base@),
        },
{
    match root {
        CssPackageNameRoot::Other => Ok(None),
        CssPackageNameRoot::Object(None) => Err(CssPackageNameError::MissingName),
        CssPackageNameRoot::Object(Some(name)) => Ok(
            Some(normalize_css_package_name_for_bundle(name.as_str())),
        ),
    }
}

// ---------------------------------------------------------------------------------------------
// Reading and writing the payload

/// Where the name that a `package.json` gives is kept.
#[derive(Debug)]
pub struct CssPackageNameCacheTarget {
    pub config: DxMachineCacheConfig,
    pub source_path: String,
    pub paths: DxMachineCachePaths,
}

/// Only a large `package.json` has a place in the cache.
pub fn css_package_name_cache_target(
    project_root: &str,
    pkg_path: &str,
    source_len: usize,
    cache_config: &Option<DxMachineCacheConfig>,
) -> (r: Option<CssPackageNameCacheTarget>)
    ensures
        r is Some == (source_len > CSS_PACKAGE_NAME_MACHINE_MIN_SOURCE_BYTES && (
        *cache_config matches Some(config) && config.enabled)),
        r matches Some(target) ==> {
            &&& *cache_config matches Some(config)
            &&& target.config.enabled
            &&& target.config.root@ == config.root@
            &&& target.config.style == config.style
            &&& target.source_path@ == path_text::path_below(project_root@, pkg_path@, config.style)
            &&& (target.paths.machine@, target.paths.metadata@) == machine_cache::artifact_paths(
                config.root@,
                project_root@,
                CSS_PACKAGE_NAME_CACHE_NAMESPACE@,
                path_text::path_below(project_root@, pkg_path@, config.style),
                config.style,
            )
        },
{
    if source_len <= CSS_PACKAGE_NAME_MACHINE_MIN_SOURCE_BYTES {
        return None;
    }
    match cache_config {
        Some(config) => {
            if !config.enabled {
                return None;
            }
            let source_path: String = machine_source_path(project_root, pkg_path, config.style);
            let paths: DxMachineCachePaths = config.paths_for_source(
                project_root,
                CSS_PACKAGE_NAME_CACHE_NAMESPACE,
                source_path.as_str(),
            );
            Some(
                CssPackageNameCacheTarget {
                    config: DxMachineCacheConfig {
                        enabled: true,
                        root: config.root.clone(),
                        style: config.style,
                    },
                    source_path,
                    paths,
                },
            )
        },
        None => None,
    }
}

/// A look-up under one path.
pub open spec fn looked_up(
    target: CssPackageNameCacheTarget,
    source_path: Seq<char>,
    source_bytes: Seq<u8>,
    files: MachineCacheFiles,
) -> DxMachineCacheStatus<machine_cache::HitModel> {
    machine_cache::validated_read(
        target.config.enabled,
        target.paths.machine@,
        source_path,
        source_bytes,
        files.metadata@,
        machine_cache::parsed_model(files.parsed),
        files.machine@,
        target.config.style,
    )
}

/// A look-up under the path below the project root, and under the path as given where the first
/// is refused and the two differ.
pub open spec fn validated_hit(
    target: CssPackageNameCacheTarget,
    pkg_path: Seq<char>,
    source_bytes: Seq<u8>,
    files: MachineCacheFiles,
    files_again: MachineCacheFiles,
) -> Option<machine_cache::HitModel> {
    match looked_up(target, target.source_path@, source_bytes, files) {
        DxMachineCacheStatus::Hit(hit) => Some(hit),
        DxMachineCacheStatus::Invalid => if path_text::same_path(
            target.source_path@,
            pkg_path,
            target.config.style,
        ) {
            None
        } else {
            match looked_up(target, pkg_path, source_bytes, files_again) {
                DxMachineCacheStatus::Hit(hit) => Some(hit),
                _ => None,
            }
        },
        _ => None,
    }
}

/// What a look-up comes to. `files_again` is what the disk holds when the second look-up is made.
pub fn read_css_package_name_validated_machine_hit(
    target: &CssPackageNameCacheTarget,
    pkg_path: &str,
    source_bytes: &[u8],
    files: MachineCacheFiles,
    files_again: MachineCacheFiles,
) -> (r: Option<DxMachineCacheHit>)
    ensures
        match r {
            Some(hit) => Some(hit@),
            None => None,
        } == validated_hit(*target, pkg_path@, source_bytes@, files, files_again),
{
    match target.config.read_validated_machine_with_source_hash(
        &target.paths,
        target.source_path.as_str(),
        source_bytes,
        files,
    ) {
        DxMachineCacheStatus::Hit(hit) => Some(hit),
        DxMachineCacheStatus::Invalid => {
            if paths_are_equal(target.source_path.as_str(), pkg_path, target.config.style) {
                return None;
            }
            match target.config.read_validated_machine_with_source_hash(
                &target.paths,
                pkg_path,
                source_bytes,
                files_again,
            ) {
                DxMachineCacheStatus::Hit(hit) => Some(hit),
                _ => None,
            }
        },
        _ => None,
    }
}

/// What the cache knows of a `package.json`: its name, or the digest of the source whose payload
/// is to be written anew, or nothing.
pub enum CssPackageNameRead {
    Name(String),
    Repair([u8; 32]),
    Miss,
}

pub fn consult_css_package_name_cache(
    target: &CssPackageNameCacheTarget,
    pkg_path: &str,
    source_bytes: &[u8],
    files: MachineCacheFiles,
    files_again: MachineCacheFiles,
) -> (r: CssPackageNameRead)
    ensures
        match validated_hit(*target, pkg_path@, source_bytes@, files, files_again) {
            None => r is Miss,
            Some(hit) => match decoded_payload(hit.machine_bytes) {
                Some(name) => r matches CssPackageNameRead::Name(found) && found@ == name,
                None => r matches CssPackageNameRead::Repair(hash) && hash@ == hit.source_hash,
            },
        },
{
    match read_css_package_name_validated_machine_hit(
        target,
        pkg_path,
        source_bytes,
        files,
        files_again,
    ) {
        None => CssPackageNameRead::Miss,
        Some(hit) => match decode_css_package_name_machine_payload(hit.machine_bytes.as_slice()) {
            Some(name) => CssPackageNameRead::Name(name),
            None => CssPackageNameRead::Repair(hit.source_hash),
        },
    }
}

/// What to write for a name. A digest that is already known is not computed again.
pub fn write_css_package_name(
    target: &CssPackageNameCacheTarget,
    source_bytes: &[u8],
    name: &str,
    source_hash: Option<[u8; 32]>,
) -> (r: Option<MachineArtifactWrite>)
    ensures
        ({
            let bytes = encoded_payload(name@);
            &&& r is Some == (encode_utf8(name@).len() <= u32::MAX && target.config.enabled
                && machine_cache::size_benefits(source_bytes@.len(), bytes.len()))
            &&& r matches Some(write) ==> {
                &&& write.machine.path@ == target.paths.machine@
                &&& write.machine.bytes@ == bytes
                &&& write.metadata.path@ == target.paths.metadata@
                &&& write.metadata.bytes@ == machine_write::metadata_bytes(
                    target.source_path@,
                    source_bytes@.len(),
                    digest::effective_hash(source_hash, source_bytes@),
                    target.paths.machine@,
                    bytes,
                    target.config.style,
                )
            }
        }),
{
    let machine_bytes: Vec<u8> = encode_css_package_name_machine_payload(name)?;
    match source_hash {
        Some(hash) => target.config.write_machine_artifact_with_source_hash(
            &target.paths,
            target.source_path.as_str(),
            source_bytes.len(),
            &hash,
            machine_bytes.as_slice(),
        ),
        None => target.config.write_machine_artifact(
            &target.paths,
            target.source_path.as_str(),
            source_bytes,
            machine_bytes.as_slice(),
        ),
    }
}

/// What is written for a name is read back as that name, for the same source, as long as the
/// files are within the sizes that a reader accepts.
pub proof fn lemma_written_name_reads_back(
    target: CssPackageNameCacheTarget,
    pkg_path: Seq<char>,
    source_bytes: Seq<u8>,
    name: Seq<char>,
    files: MachineCacheFiles,
    files_again: MachineCacheFiles,
)
    requires
        target.config.enabled,
        encode_utf8(name).len() <= u32::MAX,
        source_bytes.len() <= u64::MAX,
        machine_cache::size_benefits(source_bytes.len(), encoded_payload(name).len()),
        encoded_payload(name).len() <= crate::metadata::DX_MACHINE_MAX_BYTES,
        files.machine@ == machine_cache::FileModel::Bytes(encoded_payload(name)),
        ({
            let metadata = machine_write::metadata_bytes(
                target.source_path@,
                source_bytes.len(),
                digest::blake3_digest(source_bytes),
                target.paths.machine@,
                encoded_payload(name),
                target.config.style,
            );
            &&& metadata.len() <= machine_cache::DX_MACHINE_METADATA_MAX_BYTES
            &&& files.metadata@ == machine_cache::FileModel::Bytes(metadata)
        }),
    ensures
        validated_hit(target, pkg_path, source_bytes, files, files_again) matches Some(hit)
            && decoded_payload(hit.machine_bytes) == Some(name),
{
    lemma_payload_round_trip(name);
    machine_write::lemma_write_then_read_hits(
        target.paths.machine@,
        target.source_path@,
        source_bytes,
        encoded_payload(name),
        machine_cache::parsed_model(files.parsed),
        target.config.style,
    );
}

// ---------------------------------------------------------------------------------------------
// The name of the bundle

/// A search for the nearest package with a name.
#[derive(Debug, Clone, PartialEq, Eq)]
pub struct CssBundleNameSearch {
    pub directory: Directory,
}

/// What the search for a bundle name comes to: a name, a `package.json` to look into, or nothing.
#[derive(Debug, Clone, PartialEq, Eq)]
pub enum CssBundleNameStep {
    Named(String),
    Probe(CssBundleNameSearch),
    NotFound,
}

pub ghost enum NameStepModel {
    Named(Seq<char>),
    Probe(directory::DirectoryModel),
    NotFound,
}

impl View for CssBundleNameStep {
    type V = NameStepModel;

    open spec fn view(&self) -> NameStepModel {
        match *self {
            CssBundleNameStep::Named(name) => NameStepModel::Named(name@),
            CssBundleNameStep::Probe(search) => NameStepModel::Probe(search.directory@),
            CssBundleNameStep::NotFound => NameStepModel::NotFound,
        }
    }
}

/// The text for a search that found no package.
pub fn css_bundle_name_not_found_message() -> (r: String)
    ensures
        r@
            == "Didn't find the nearest package.json when determining the library CSS bundle name."@,
{
    "Didn't find the nearest package.json when determining the library CSS bundle name.".to_string()
}

/// The directory that a path names.
pub open spec fn starting_directory(path: Seq<char>, style: PathStyle) -> directory::DirectoryModel {
    match directory::absolute_path(path, style) {
        Some(found) => found,
        None => directory::DirectoryModel {
            root: Seq::empty(),
            parts: path_text::native_components(path, style),
        },
    }
}

fn directory_at(path: &str, style: PathStyle) -> (r: Directory)
    ensures
        r@ == starting_directory(path@, style),
{
    match split_absolute_path(path, style) {
        Some(found) => found,
        None => Directory { root: String::new(), parts: native_path_components(path, style) },
    }
}

/// A name that was determined before stands. Outside library mode the name is fixed; a library
/// has the name that was asked for, or that of the nearest package.
pub fn begin_css_bundle_name(
    known: Option<String>,
    is_lib: bool,
    lib_css_filename: Option<String>,
    root: &str,
    style: PathStyle,
) -> (step: CssBundleNameStep)
    ensures
        step@ == match (known, lib_css_filename) {
            (Some(name), _) => NameStepModel::Named(name@),
            (None, asked) => if !is_lib {
                NameStepModel::Named(DEFAULT_CSS_BUNDLE_NAME@)
            } else {
                match asked {
                    Some(name) => NameStepModel::Named(name@),
                    None => NameStepModel::Probe(starting_directory(root@, style)),
                }
            },
        },
{
    match known {
        Some(name) => CssBundleNameStep::Named(name),
        None => {
            if !is_lib {
                return CssBundleNameStep::Named(DEFAULT_CSS_BUNDLE_NAME.to_string());
            }
            match lib_css_filename {
                Some(name) => CssBundleNameStep::Named(name),
                None => CssBundleNameStep::Probe(
                    CssBundleNameSearch { directory: directory_at(root, style) },
                ),
            }
        },
    }
}

/// The next step, given the name of the package at hand, where there is one with a name.
pub open spec fn name_step(
    directory: directory::DirectoryModel,
    found: Option<Seq<char>>,
) -> NameStepModel {
    match found {
        Some(name) => NameStepModel::Named(name + ".css"@),
        None => match directory::parent_directory(directory) {
            Some(parent) => NameStepModel::Probe(parent),
            None => NameStepModel::NotFound,
        },
    }
}

impl CssBundleNameSearch {
    /// The `package.json` to look into.
    pub fn probe(&self) -> (path: String)
        ensures
            path@ == directory::child_text(self.directory@, "package.json"@),
    {
        self.directory.child_path("package.json")
    }

    pub fn next(self, found: Option<String>) -> (step: CssBundleNameStep)
        ensures
            step@ == name_step(self.directory@, codec::opt_text(found)),
            found matches Some(name) ==> (step matches CssBundleNameStep::Named(bundle) && bundle@
                == name@ + ".css"@),
            found is None ==> (step is NotFound <==> self.directory@.parts.len() == 0),
            found is None && self.directory@.parts.len() > 0 ==> (
            step matches CssBundleNameStep::Probe(above) && above.directory@.root
                == self.directory@.root && above.directory@.parts
                == self.directory@.parts.drop_last()),
    {
        match found {
            Some(name) => {
                let mut output: String = name;
                output.push_str(".css");
                CssBundleNameStep::Named(output)
            },
            None => {
                let mut directory: Directory = self.directory;
                if directory.pop() {
                    CssBundleNameStep::Probe(CssBundleNameSearch { directory })
                } else {
                    CssBundleNameStep::NotFound
                }
            },
        }
    }
}

/// What a search ends with, where `names` says which name the package at a path gives.
pub open spec fn searched_name(
    directory: directory::DirectoryModel,
    names: spec_fn(Seq<char>) -> Option<Seq<char>>,
) -> Option<Seq<char>>
    decreases directory.parts.len(),
{
    match name_step(directory, names(directory::child_text(directory, "package.json"@))) {
        NameStepModel::Named(name) => Some(name),
        NameStepModel::Probe(parent) => if parent.parts.len() < directory.parts.len() {
            searched_name(parent, names)
        } else {
            None
        },
        NameStepModel::NotFound => None,
    }
}

/// The directory `up` levels above.
pub open spec fn ancestor(
    directory: directory::DirectoryModel,
    up: nat,
) -> directory::DirectoryModel {
    directory::DirectoryModel {
        root: directory.root,
        parts: directory.parts.take(directory.parts.len() - up),
    }
}

pub open spec fn ancestor_name(
    directory: directory::DirectoryModel,
    up: nat,
    names: spec_fn(Seq<char>) -> Option<Seq<char>>,
) -> Option<Seq<char>> {
    names(directory::child_text(ancestor(directory, up), "package.json"@))
}

/// A search ends with the name of the nearest directory upwards whose package has one, and finds
/// nothing only where no directory up to the root has one.
pub proof fn lemma_nearest_package_names_the_bundle(
    directory: directory::DirectoryModel,
    names: spec_fn(Seq<char>) -> Option<Seq<char>>,
)
    ensures
        match searched_name(directory, names) {
            Some(bundle) => exists|up: nat|
                up <= directory.parts.len() && (#[trigger] ancestor_name(directory, up, names)
                    matches Some(name) && bundle == name + ".css"@) && forall|below: nat|
                    below < up ==> (#[trigger] ancestor_name(directory, below, names)) is None,
            None => forall|up: nat|
                up <= directory.parts.len() ==> (#[trigger] ancestor_name(directory, up, names))
                    is None,
        },
    decreases directory.parts.len(),
{
    assert(directory.parts.take(directory.parts.len() as int) =~= directory.parts);
    assert(ancestor(directory, 0) == directory);
    let here = ancestor_name(directory, 0, names);
    assert(here == names(directory::child_text(directory, "package.json"@)));
    if here is None && directory.parts.len() > 0 {
        let parent = directory::parent_directory(directory)->0;
        lemma_nearest_package_names_the_bundle(parent, names);
        assert forall|up: nat| up <= parent.parts.len() implies #[trigger] ancestor_name(
            parent,
            up,
            names,
        ) == ancestor_name(directory, up + 1, names) by {
            assert(ancestor(parent, up).parts =~= ancestor(directory, up + 1).parts);
        }
        match searched_name(parent, names) {
            Some(bundle) => {
                let up = choose|up: nat|
                    up <= parent.parts.len() && (#[trigger] ancestor_name(parent, up, names)
                        matches Some(name) && bundle == name + ".css"@) && forall|below: nat|
                        below < up ==> (#[trigger] ancestor_name(parent, below, names)) is None;
                assert(ancestor_name(directory, up + 1, names) == ancestor_name(parent, up, names));
                assert forall|below: nat| below < up + 1 implies (#[trigger] ancestor_name(
                    directory,
                    below,
                    names,
                )) is None by {
                    if below > 0 {
                        assert(ancestor_name(parent, (below - 1) as nat, names) is None);
                    }
                }
            },
            None => {
                assert forall|up: nat| up <= directory.parts.len() implies (
                #[trigger] ancestor_name(directory, up, names)) is None by {
                    if up > 0 {
                        assert(ancestor_name(parent, (up - 1) as nat, names) is None);
                    }
                }
            },
        }
    } else if here is None {
        assert forall|up: nat| up <= directory.parts.len() implies (#[trigger] ancestor_name(
            directory,
            up,
            names,
        )) is None by {
            assert(up == 0);
        }
    }
}

/// A payload that is read is the one that is written for the name.
pub proof fn lemma_decoded_payload_encodes_back(bytes: Seq<u8>)
    ensures
        decoded_payload(bytes) matches Some(name) ==> encoded_payload(name) == bytes,
{
    if let Some(name) = decoded_payload(bytes) {
        let body = bytes.skip(12);
        codec::lemma_u32_read_is_written(body);
        let (len, rest) = codec::u32_at(body)->0;
        decode_utf8_encode_utf8(rest);
        assert(codec::encoded_text(name) =~= codec::le32(len) + rest);
        assert(payload_prefix() =~= bytes.subrange(0, 12));
        assert(bytes =~= bytes.subrange(0, 12) + body);
    }
}

/// The search for a name starts in the directory that is given: in its root and with its components
/// where it is absolute, else with the components alone.
pub proof fn lemma_search_starts_in_directory(path: Seq<char>, style: PathStyle)
    ensures
        !path_text::is_absolute(path, style) ==> starting_directory(path, style).root.len() == 0
            && starting_directory(path, style).parts == path_text::native_components(path, style),
        path_text::is_absolute(path, style) ==> directory::absolute_path(path, style) == Some(
            starting_directory(path, style),
        ),
{
    directory::lemma_absolute_path(path, style);
}

/// A name is taken from the cache exactly where the artifact may be used for the source under its path
/// below the project; or, where that read is invalid and the path as given is another, under that one.
pub proof fn lemma_validated_hit(
    target: CssPackageNameCacheTarget,
    pkg_path: Seq<char>,
    source_bytes: Seq<u8>,
    files: MachineCacheFiles,
    files_again: MachineCacheFiles,
)
    ensures
        ({
            let first = machine_cache::may_be_used(
                target.config.enabled,
                target.paths.machine@,
                target.source_path@,
                source_bytes,
                files.metadata@,
                machine_cache::parsed_model(files.parsed),
                files.machine@,
                target.config.style,
            );
            let second = machine_cache::may_be_used(
                target.config.enabled,
                target.paths.machine@,
                pkg_path,
                source_bytes,
                files_again.metadata@,
                machine_cache::parsed_model(files_again.parsed),
                files_again.machine@,
                target.config.style,
            );
            let status = looked_up(target, target.source_path@, source_bytes, files);
            let other = !path_text::same_path(target.source_path@, pkg_path, target.config.style);
            &&& validated_hit(target, pkg_path, source_bytes, files, files_again) is Some == (first
                || (status is Invalid && other && second))
            &&& validated_hit(target, pkg_path, source_bytes, files, files_again) matches Some(hit)
                ==> hit.source_hash == digest::blake3_digest(source_bytes) && (
            machine_cache::FileModel::Bytes(hit.machine_bytes) == if first {
                files.machine@
            } else {
                files_again.machine@
            })
        }),
{
    machine_cache::lemma_hit_means_usable(
        target.config.enabled,
        target.paths.machine@,
        target.source_path@,
        source_bytes,
        files.metadata@,
        machine_cache::parsed_model(files.parsed),
        files.machine@,
        target.config.style,
    );
    machine_cache::lemma_hit_means_usable(
        target.config.enabled,
        target.paths.machine@,
        pkg_path,
        source_bytes,
        files_again.metadata@,
        machine_cache::parsed_model(files_again.parsed),
        files_again.machine@,
        target.config.style,
    );
}

} // verus!
