//! How a tsconfig file is found, and when its payload is read and written.
//!
//! The file system and the resolver are asked by the caller, who hands the answers back.

use vstd::prelude::*;
use vstd::utf8::*;
use crate::codec;
use crate::codec::starts_with_bytes;
use crate::digest;
use crate::digest::blake3_hash;
use crate::directory;
use crate::directory::{path_directory, split_absolute_path, Directory};
use crate::machine_cache;
use crate::machine_cache::{DxMachineCacheConfig, DxMachineCachePaths, DxMachineCacheStatus,
    MachineCacheFiles};
use crate::machine_write;
use crate::machine_write::{copy_bytes, MachineArtifactWrite};
use crate::package_json;
use crate::path_text;
use crate::path_text::{native_path_components, path_components, path_key_text, paths_are_equal,
    PathStyle};
use crate::shared_map;
use crate::shared_map::{clear_handles, clear_texts, count_handles, handle_of, insert_text,
    keep_handle, new_handles, new_texts, text_of, remove_text};
use crate::text;
use crate::text::{chars_of, same_text};
use crate::tsconfig;
use crate::tsconfig_reading;
use crate::tsconfig::{decode_dx_tsconfig_machine_payload_with_source_hash,
    encode_dx_tsconfig_machine_payload, DxTsconfigCompilerOptionsPayload, DxTsconfigMachinePayload,
    DX_TSCONFIG_MACHINE_SCHEMA};

verus! {

pub const DX_TSCONFIG_CACHE_NAMESPACE: &'static str = "tsconfig_metadata";

pub const DX_TSCONFIG_MACHINE_MIN_SOURCE_BYTES: usize = 16384;

// ---------------------------------------------------------------------------------------------
// From a payload to a tsconfig and back

#[verifier::external_type_specification]
#[verifier::external_body]
pub struct ExTsConfig(oxc_resolver::TsConfig);

/// A tsconfig as the resolver has it, its path, and the text that it was parsed from.
pub struct ParsedTsconfig {
    pub config: oxc_resolver::TsConfig,
    pub path: String,
    pub json: String,
}

/// Whether `TsConfig::parse` accepts a text.
pub uninterp spec fn tsconfig_parses(json: Seq<char>) -> bool;

/// The config that `TsConfig::parse` makes of an accepted text for the root config at a path.
pub uninterp spec fn resolver_config(path: Seq<char>, json: Seq<char>) -> oxc_resolver::TsConfig;

/// What a payload text parses to: the resolver's config of this text, at this path.
pub open spec fn is_config_of(parsed: ParsedTsconfig, path: Seq<char>, json: Seq<char>) -> bool {
    parsed.path@ == path && parsed.json@ == json && parsed.config == resolver_config(path, json)
}

/// How many components belong to the root of a path, where the root is spelled with components.
pub open spec fn root_components(path: Seq<char>) -> nat {
    let parts = path_text::components(path);
    if path.len() < 2 || !path_text::is_separator(path[0]) || !path_text::is_separator(path[1]) {
        0
    } else if parts.len() > 1 && parts[0] == seq!['?'] && parts[1] == "UNC"@ {
        4
    } else {
        2
    }
}

/// Whether a path names something inside a directory, under the rules of every platform.
pub open spec fn has_directory(path: Seq<char>) -> bool {
    let parts = path_text::components(path);
    parts.len() > root_components(path) && (parts.len() > 1 || !parts[0].contains(':'))
}

fn holds_colon(value: &str) -> (r: bool)
    ensures
        r == value@.contains(':'),
{
    let chars: Vec<char> = chars_of(value);
    let mut i: usize = 0;
    while i < chars.len()
        invariant
            chars@ == value@,
            i <= chars.len(),
            forall|j: int| 0 <= j < i ==> #[trigger] chars@[j] != ':',
        decreases chars.len() - i,
    {
        if chars[i] == ':' {
            return true;
        }
        i = i + 1;
    }
    false
}

pub fn path_has_directory(path: &str) -> (r: bool)
    ensures
        r == has_directory(path@),
{
    let parts: Vec<String> = path_components(path);
    let chars: Vec<char> = chars_of(path);
    proof {
        assert(parts.len() == path_text::components(path@).len());
        reveal_strlit("?");
        assert("?"@ =~= seq!['?']);
        assert forall|i: int| 0 <= i < parts.len() implies #[trigger] parts@[i]@
            == path_text::components(path@)[i] by {
            assert(text::texts(parts@)[i] == parts@[i]@);
        }
    }
    let rooted: bool = chars.len() >= 2 && path_text::metadata_path_byte_is_separator(chars[0])
        && path_text::metadata_path_byte_is_separator(chars[1]);
    let root: usize = if !rooted {
        0
    } else if parts.len() > 1 && same_text(parts[0].as_str(), "?") && same_text(
        parts[1].as_str(),
        "UNC",
    ) {
        4
    } else {
        2
    };
    parts.len() > root && (parts.len() > 1 || !holds_colon(parts[0].as_str()))
}

/// `oxc_resolver::TsConfig::parse` of the root config at `path`: whether it accepts the text
/// depends on the text alone, the config that it makes of an accepted text depends on the path and
/// the text alone, and it carries the path. A path without a directory would panic.
#[verifier::external_body]
fn parse_tsconfig(path: &str, json: String) -> (parsed: Option<ParsedTsconfig>)
    requires
        has_directory(path@),
    ensures
        parsed is Some == tsconfig_parses(json@),
        parsed matches Some(found) ==> found.path@ == path@ && found.json == json,
        parsed matches Some(found) ==> found.config == resolver_config(path@, json@),
{
    let path = std::path::Path::new(path);
    let config = oxc_resolver::TsConfig::parse(true, path, path, json.clone()).ok()?;
    Some(ParsedTsconfig { path: config.path.to_string_lossy().to_string(), config, json })
}

/// The parts of a tsconfig that a payload keeps.
#[derive(Debug, Clone, PartialEq, Eq)]
pub struct TsconfigParts {
    pub files: Option<Vec<String>>,
    pub included: Option<Vec<String>>,
    pub exclude: Option<Vec<String>>,
    pub compiler_options: DxTsconfigCompilerOptionsPayload,
}

/// The payload of these parts for a source with this digest.
pub open spec fn payload_of(parts: TsconfigParts, source_hash: Seq<u8>) -> tsconfig::PayloadModel {
    tsconfig::PayloadModel {
        source_blake3: source_hash,
        lists: seq![
            tsconfig::FieldModel::Texts(codec::opt_texts(parts.files)),
            tsconfig::FieldModel::Texts(codec::opt_texts(parts.included)),
            tsconfig::FieldModel::Texts(codec::opt_texts(parts.exclude)),
        ],
        options: parts.compiler_options@,
    }
}

impl DxTsconfigMachinePayload {
    pub fn from_tsconfig_with_source_hash(parts: TsconfigParts, source_hash: &[u8; 32]) -> (payload:
        Self)
        ensures
            payload.schema@ == DX_TSCONFIG_MACHINE_SCHEMA@,
            payload@ == payload_of(parts, source_hash@),
            codec::opt_texts(payload.files) == codec::opt_texts(parts.files),
            codec::opt_texts(payload.included) == codec::opt_texts(parts.included),
            codec::opt_texts(payload.exclude) == codec::opt_texts(parts.exclude),
            payload.compiler_options == parts.compiler_options,
            payload.source_blake3@ == source_hash@,
    {
        DxTsconfigMachinePayload {
            schema: DX_TSCONFIG_MACHINE_SCHEMA,
            source_blake3: *source_hash,
            files: parts.files,
            included: parts.included,
            exclude: parts.exclude,
            compiler_options: parts.compiler_options,
        }
    }

    /// The payload of a tsconfig for the source that it was parsed from.
    pub fn from_tsconfig(parts: TsconfigParts, source_bytes: &[u8]) -> (payload: Self)
        ensures
            payload.schema@ == DX_TSCONFIG_MACHINE_SCHEMA@,
            payload@ == payload_of(parts, digest::blake3_digest(source_bytes@)),
            codec::opt_texts(payload.files) == codec::opt_texts(parts.files),
            codec::opt_texts(payload.included) == codec::opt_texts(parts.included),
            codec::opt_texts(payload.exclude) == codec::opt_texts(parts.exclude),
            payload.compiler_options == parts.compiler_options,
            payload.source_blake3@ == digest::blake3_digest(source_bytes@),
    {
        let source_hash: [u8; 32] = blake3_hash(source_bytes);
        DxTsconfigMachinePayload::from_tsconfig_with_source_hash(parts, &source_hash)
    }

    pub fn to_tsconfig_without_source_validation(&self, tsconfig_path: &str) -> (r: Option<
        ParsedTsconfig,
    >)
        requires
            has_directory(tsconfig_path@),
        ensures
            r is Some == tsconfig_parses(tsconfig::tsconfig_json(self@)),
            r matches Some(parsed) ==> is_config_of(
                parsed,
                tsconfig_path@,
                tsconfig::tsconfig_json(self@),
            ),
            r matches Some(parsed) ==> tsconfig_reading::holds_payload(parsed.json@, *self),
    {
        proof {
            tsconfig_reading::lemma_json_holds_payload(*self);
        }
        let json: String = self.to_tsconfig_json_string()?;
        parse_tsconfig(tsconfig_path, json)
    }

    /// The tsconfig of a payload that was made for a source with this digest.
    pub fn to_tsconfig_with_source_hash(&self, tsconfig_path: &str, source_hash: &[u8; 32]) -> (r:
        Option<ParsedTsconfig>)
        requires
            has_directory(tsconfig_path@),
        ensures
            r is Some == (self.schema@ == DX_TSCONFIG_MACHINE_SCHEMA@ && self@.source_blake3
                == source_hash@ && tsconfig_parses(tsconfig::tsconfig_json(self@))),
            r matches Some(parsed) ==> is_config_of(
                parsed,
                tsconfig_path@,
                tsconfig::tsconfig_json(self@),
            ),
            r matches Some(parsed) ==> tsconfig_reading::holds_payload(parsed.json@, *self),
    {
        proof {
            tsconfig_reading::lemma_json_holds_payload(*self);
        }
        if !same_text(self.schema, DX_TSCONFIG_MACHINE_SCHEMA) || !tsconfig::same_hash(
            &self.source_blake3,
            source_hash,
        ) {
            return None;
        }
        self.to_tsconfig_without_source_validation(tsconfig_path)
    }

    /// The tsconfig of a payload that was made for this source.
    pub fn to_tsconfig(&self, tsconfig_path: &str, source_bytes: &[u8]) -> (r: Option<
        ParsedTsconfig,
    >)
        requires
            has_directory(tsconfig_path@),
        ensures
            r is Some == (self.schema@ == DX_TSCONFIG_MACHINE_SCHEMA@ && self@.source_blake3
                == digest::blake3_digest(source_bytes@) && tsconfig_parses(
                tsconfig::tsconfig_json(self@),
            )),
            r matches Some(parsed) ==> is_config_of(
                parsed,
                tsconfig_path@,
                tsconfig::tsconfig_json(self@),
            ),
            r matches Some(parsed) ==> tsconfig_reading::holds_payload(parsed.json@, *self),
    {
        proof {
            tsconfig_reading::lemma_json_holds_payload(*self);
        }
        let source_hash: [u8; 32] = blake3_hash(source_bytes);
        self.to_tsconfig_with_source_hash(tsconfig_path, &source_hash)
    }
}

// ---------------------------------------------------------------------------------------------
// Dependencies on other files

/// What `json_strip_comments::strip_slice` leaves of a JSON text with comments.
pub uninterp spec fn without_comments(json: Seq<u8>) -> Seq<u8>;

/// `json_strip_comments::strip_slice`, errors ignored: comments and trailing commas become spaces
/// in place. What is left depends on the bytes alone, and their number stays.
#[verifier::external_body]
fn strip_json_comments(json: &mut Vec<u8>)
    ensures
        final(json)@ == without_comments(old(json)@),
        final(json)@.len() == old(json)@.len(),
{
    let _ = json_strip_comments::strip_slice(json.as_mut_slice());
}

pub open spec fn blanked_bom(bytes: Seq<u8>) -> Seq<u8> {
    if package_json::utf8_bom().is_prefix_of(bytes) {
        seq![0x20u8, 0x20, 0x20] + bytes.skip(3)
    } else {
        bytes
    }
}

pub fn replace_utf8_bom_with_whitespace(json: &mut Vec<u8>)
    ensures
        final(json)@ == blanked_bom(old(json)@),
        final(json)@.len() == old(json)@.len(),
        forall|i: int| 3 <= i < old(json)@.len() ==> #[trigger] final(json)@[i] == old(json)@[i],
        old(json)@.len() >= 3 && old(json)@[0] == 0xef && old(json)@[1] == 0xbb && old(json)@[2]
            == 0xbf ==> final(json)@[0] == 0x20 && final(json)@[1] == 0x20 && final(json)@[2]
            == 0x20,
        !(old(json)@.len() >= 3 && old(json)@[0] == 0xef && old(json)@[1] == 0xbb && old(json)@[2]
            == 0xbf) ==> final(json)@ == old(json)@,
{
    let bom: [u8; 3] = [0xef, 0xbb, 0xbf];
    assert(bom@ =~= package_json::utf8_bom());
    if starts_with_bytes(json.as_slice(), bom.as_slice()) {
        json.set(0, 0x20);
        json.set(1, 0x20);
        json.set(2, 0x20);
        assert(json@ =~= blanked_bom(old(json)@));
    }
}

/// The strict JSON behind a tsconfig source: no byte order mark, no comments.
pub fn tsconfig_preflight_json(source_bytes: &[u8]) -> (json: Vec<u8>)
    ensures
        json@ == without_comments(blanked_bom(source_bytes@)),
        json@.len() == source_bytes@.len(),
{
    let mut json: Vec<u8> = copy_bytes(source_bytes);
    replace_utf8_bom_with_whitespace(&mut json);
    strip_json_comments(&mut json);
    json
}

/// What a JSON parser finds at the top of a tsconfig.
#[derive(Debug, Clone, PartialEq, Eq)]
pub enum TsconfigTopLevel {
    Object(Vec<String>),
    Other,
}

/// Whether a tsconfig depends on other files: it extends or references some, or it could not be
/// parsed and so may do anything.
pub open spec fn depends_on_other_files(top_level: Option<TsconfigTopLevel>) -> bool {
    match top_level {
        None => true,
        Some(TsconfigTopLevel::Object(keys)) => text::texts(keys@).contains("extends"@)
            || text::texts(keys@).contains("references"@),
        Some(TsconfigTopLevel::Other) => false,
    }
}

pub fn tsconfig_source_has_external_dependencies(top_level: &Option<TsconfigTopLevel>) -> (r: bool)
    ensures
        r == depends_on_other_files(*top_level),
        *top_level is None ==> r,
        *top_level == Some(TsconfigTopLevel::Other) ==> !r,
        *top_level matches Some(TsconfigTopLevel::Object(keys)) ==> r == (text::texts(
            keys@,
        ).contains("extends"@) || text::texts(keys@).contains("references"@)),
{
    match top_level {
        None => true,
        Some(TsconfigTopLevel::Object(keys)) => crate::name_set::contains_name(keys, "extends")
            || crate::name_set::contains_name(keys, "references"),
        Some(TsconfigTopLevel::Other) => false,
    }
}

// ---------------------------------------------------------------------------------------------
// Reading and writing the payload

pub fn dx_tsconfig_machine_cache_paths_if_enabled(
    cache_config: &DxMachineCacheConfig,
    project_root: &str,
    tsconfig_path: &str,
) -> (paths: Option<DxMachineCachePaths>)
    ensures
        paths is Some == cache_config.enabled,
        paths matches Some(p) ==> (p.machine@, p.metadata@) == tsconfig_paths(
            cache_config.root@,
            project_root@,
            tsconfig_path@,
            cache_config.style,
        ),
{
    cache_config.paths_for_source_if_enabled(
        project_root,
        DX_TSCONFIG_CACHE_NAMESPACE,
        tsconfig_path,
    )
}

pub open spec fn tsconfig_paths(
    root: Seq<char>,
    project_root: Seq<char>,
    tsconfig_path: Seq<char>,
    style: PathStyle,
) -> (Seq<char>, Seq<char>) {
    machine_cache::artifact_paths(
        root,
        project_root,
        DX_TSCONFIG_CACHE_NAMESPACE@,
        tsconfig_path,
        style,
    )
}

/// The artifact files to look into for a tsconfig source; only a large source has any.
pub fn dx_tsconfig_machine_cache_lookup_paths(
    cache_config: &DxMachineCacheConfig,
    project_root: &str,
    tsconfig_path: &str,
    source_bytes: &[u8],
) -> (paths: Option<DxMachineCachePaths>)
    ensures
        paths is Some == (cache_config.enabled && source_bytes@.len()
            > DX_TSCONFIG_MACHINE_MIN_SOURCE_BYTES),
        paths matches Some(p) ==> (p.machine@, p.metadata@) == tsconfig_paths(
            cache_config.root@,
            project_root@,
            tsconfig_path@,
            cache_config.style,
        ),
{
    if source_bytes.len() <= DX_TSCONFIG_MACHINE_MIN_SOURCE_BYTES {
        return None;
    }
    dx_tsconfig_machine_cache_paths_if_enabled(cache_config, project_root, tsconfig_path)
}

/// What a validated artifact came to: a tsconfig, or the digest of the source whose artifact is
/// to be written anew.
pub struct DxTsconfigMachineCacheRead {
    pub tsconfig: Option<ParsedTsconfig>,
    pub repair_source_hash: Option<[u8; 32]>,
}

/// Whether an artifact holds a tsconfig for the source that it was validated for.
pub open spec fn hit_is_tsconfig(hit: machine_cache::HitModel) -> bool {
    tsconfig::decoded_payload(hit.machine_bytes) matches Some(payload) && payload.source_blake3
        == hit.source_hash && tsconfig_parses(tsconfig::tsconfig_json(payload))
}

/// The text of the tsconfig in such an artifact.
pub open spec fn hit_json(hit: machine_cache::HitModel) -> Seq<char> {
    tsconfig::tsconfig_json(tsconfig::decoded_payload(hit.machine_bytes)->0)
}

pub open spec fn opt_hash(hash: Option<[u8; 32]>) -> Option<Seq<u8>> {
    match hash {
        Some(present) => Some(present@),
        None => None,
    }
}

pub fn read_dx_tsconfig_machine_cache_or_repair_hash(
    cache_config: &DxMachineCacheConfig,
    project_root: &str,
    tsconfig_path: &str,
    source_bytes: &[u8],
    files: MachineCacheFiles,
) -> (r: Option<DxTsconfigMachineCacheRead>)
    requires
        has_directory(tsconfig_path@),
    ensures
        ({
            let looked_up = machine_cache::validated_read(
                cache_config.enabled,
                tsconfig_paths(cache_config.root@, project_root@, tsconfig_path@, cache_config.style).0,
                tsconfig_path@,
                source_bytes@,
                files.metadata@,
                machine_cache::parsed_model(files.parsed),
                files.machine@,
                cache_config.style,
            );
            if source_bytes@.len() > DX_TSCONFIG_MACHINE_MIN_SOURCE_BYTES && looked_up is Hit {
                &&& r is Some
                &&& (r->0).tsconfig is Some == hit_is_tsconfig(looked_up->Hit_0)
                &&& (r->0).tsconfig matches Some(parsed) ==> is_config_of(
                    parsed,
                    tsconfig_path@,
                    hit_json(looked_up->Hit_0),
                )
                &&& opt_hash((r->0).repair_source_hash) == if hit_is_tsconfig(looked_up->Hit_0) {
                    None
                } else {
                    Some(looked_up->Hit_0.source_hash)
                }
            } else {
                r is None
            }
        }),
{
    let paths: DxMachineCachePaths = dx_tsconfig_machine_cache_lookup_paths(
        cache_config,
        project_root,
        tsconfig_path,
        source_bytes,
    )?;
    let hit = match cache_config.read_validated_machine_with_source_hash(
        &paths,
        tsconfig_path,
        source_bytes,
        files,
    ) {
        DxMachineCacheStatus::Hit(hit) => hit,
        _ => {
            return None;
        },
    };
    let payload: Option<DxTsconfigMachinePayload> =
        decode_dx_tsconfig_machine_payload_with_source_hash(
        hit.machine_bytes.as_slice(),
        &hit.source_hash,
    );
    let tsconfig: Option<ParsedTsconfig> = match payload {
        Some(present) => present.to_tsconfig_without_source_validation(tsconfig_path),
        None => None,
    };
    match tsconfig {
        Some(parsed) => Some(
            DxTsconfigMachineCacheRead { tsconfig: Some(parsed), repair_source_hash: None },
        ),
        None => Some(
            DxTsconfigMachineCacheRead {
                tsconfig: None,
                repair_source_hash: Some(hit.source_hash),
            },
        ),
    }
}

pub fn read_dx_tsconfig_machine_cache(
    cache_config: &DxMachineCacheConfig,
    project_root: &str,
    tsconfig_path: &str,
    source_bytes: &[u8],
    files: MachineCacheFiles,
) -> (r: Option<ParsedTsconfig>)
    requires
        has_directory(tsconfig_path@),
    ensures
        ({
            let looked_up = machine_cache::validated_read(
                cache_config.enabled,
                tsconfig_paths(cache_config.root@, project_root@, tsconfig_path@, cache_config.style).0,
                tsconfig_path@,
                source_bytes@,
                files.metadata@,
                machine_cache::parsed_model(files.parsed),
                files.machine@,
                cache_config.style,
            );
            r is Some == (source_bytes@.len() > DX_TSCONFIG_MACHINE_MIN_SOURCE_BYTES
                && looked_up is Hit && hit_is_tsconfig(looked_up->Hit_0))
                && (r matches Some(parsed) ==> is_config_of(
                parsed,
                tsconfig_path@,
                hit_json(looked_up->Hit_0),
            ))
        }),
{
    match read_dx_tsconfig_machine_cache_or_repair_hash(
        cache_config,
        project_root,
        tsconfig_path,
        source_bytes,
        files,
    ) {
        Some(read) => read.tsconfig,
        None => None,
    }
}

/// What to write for a tsconfig. A digest that is already known is not computed again.
pub fn write_dx_tsconfig_machine_cache_with_optional_source_hash(
    cache_config: &DxMachineCacheConfig,
    project_root: &str,
    tsconfig_path: &str,
    source_bytes: &[u8],
    top_level: &Option<TsconfigTopLevel>,
    parts: TsconfigParts,
    source_hash: Option<&[u8; 32]>,
) -> (r: Option<MachineArtifactWrite>)
    ensures
        ({
            let payload = payload_of(parts, digest::effective_hash(source_hash, source_bytes@));
            let bytes = tsconfig::encoded_payload(payload);
            let paths = tsconfig_paths(cache_config.root@, project_root@, tsconfig_path@, cache_config.style);
            &&& r is Some == {
                &&& source_bytes@.len() > DX_TSCONFIG_MACHINE_MIN_SOURCE_BYTES
                &&& cache_config.enabled
                &&& !depends_on_other_files(*top_level)
                &&& tsconfig::payload_len_fits(payload)
                &&& machine_cache::size_benefits(source_bytes@.len(), bytes.len())
            }
            &&& r matches Some(write) ==> {
                &&& write.machine.path@ == paths.0
                &&& write.machine.bytes@ == bytes
                &&& write.metadata.path@ == paths.1
                &&& write.metadata.bytes@ == machine_write::metadata_bytes(
                    tsconfig_path@,
                    source_bytes@.len(),
                    digest::effective_hash(source_hash, source_bytes@),
                    paths.0,
                    bytes,
                    cache_config.style,
                )
            }
        }),
{
    if source_bytes.len() <= DX_TSCONFIG_MACHINE_MIN_SOURCE_BYTES {
        return None;
    }
    if !cache_config.enabled {
        return None;
    }
    if tsconfig_source_has_external_dependencies(top_level) {
        return None;
    }
    let paths: DxMachineCachePaths = dx_tsconfig_machine_cache_paths_if_enabled(
        cache_config,
        project_root,
        tsconfig_path,
    )?;
    let hash: [u8; 32] = match source_hash {
        Some(known) => *known,
        None => hash_tsconfig_source_for_write(source_bytes),
    };
    let payload: DxTsconfigMachinePayload =
        DxTsconfigMachinePayload::from_tsconfig_with_source_hash(parts, &hash);
    let machine_bytes: Vec<u8> = encode_dx_tsconfig_machine_payload(&payload)?;
    cache_config.write_machine_artifact_with_source_hash(
        &paths,
        tsconfig_path,
        source_bytes.len(),
        &hash,
        machine_bytes.as_slice(),
    )
}

pub fn write_dx_tsconfig_machine_cache(
    cache_config: &DxMachineCacheConfig,
    project_root: &str,
    tsconfig_path: &str,
    source_bytes: &[u8],
    top_level: &Option<TsconfigTopLevel>,
    parts: TsconfigParts,
) -> (r: Option<MachineArtifactWrite>)
    ensures
        ({
            let payload = payload_of(parts, digest::blake3_digest(source_bytes@));
            let bytes = tsconfig::encoded_payload(payload);
            let paths = tsconfig_paths(cache_config.root@, project_root@, tsconfig_path@, cache_config.style);
            &&& r is Some == {
                &&& source_bytes@.len() > DX_TSCONFIG_MACHINE_MIN_SOURCE_BYTES
                &&& cache_config.enabled
                &&& !depends_on_other_files(*top_level)
                &&& tsconfig::payload_len_fits(payload)
                &&& machine_cache::size_benefits(source_bytes@.len(), bytes.len())
            }
            &&& r matches Some(write) ==> {
                &&& write.machine.path@ == paths.0
                &&& write.machine.bytes@ == bytes
                &&& write.metadata.path@ == paths.1
                &&& write.metadata.bytes@ == machine_write::metadata_bytes(
                    tsconfig_path@,
                    source_bytes@.len(),
                    digest::blake3_digest(source_bytes@),
                    paths.0,
                    bytes,
                    cache_config.style,
                )
            }
        }),
{
    write_dx_tsconfig_machine_cache_with_optional_source_hash(
        cache_config,
        project_root,
        tsconfig_path,
        source_bytes,
        top_level,
        parts,
        None,
    )
}

pub fn hash_tsconfig_source_for_write(source_bytes: &[u8]) -> (hash: [u8; 32])
    ensures
        hash@ == digest::blake3_digest(source_bytes@),
{
    blake3_hash(source_bytes)
}

/// What is written for a tsconfig is read back as that tsconfig, for the same source, as long as
/// the files are within the sizes that a reader accepts and the resolver accepts the JSON.
pub proof fn lemma_written_tsconfig_reads_back(
    parts: TsconfigParts,
    cache_root: Seq<char>,
    project_root: Seq<char>,
    tsconfig_path: Seq<char>,
    source_bytes: Seq<u8>,
    parsed: Option<crate::metadata::DocumentModel>,
    style: PathStyle,
)
    requires
        source_bytes.len() <= u64::MAX,
        ({
            let payload = payload_of(parts, digest::blake3_digest(source_bytes));
            let bytes = tsconfig::encoded_payload(payload);
            let paths = tsconfig_paths(cache_root, project_root, tsconfig_path, style);
            &&& tsconfig::payload_fits(payload)
            &&& machine_cache::size_benefits(source_bytes.len(), bytes.len())
            &&& bytes.len() <= crate::metadata::DX_MACHINE_MAX_BYTES
            &&& machine_write::metadata_bytes(
                tsconfig_path,
                source_bytes.len(),
                digest::blake3_digest(source_bytes),
                paths.0,
                bytes,
                style,
            ).len() <= machine_cache::DX_MACHINE_METADATA_MAX_BYTES
        }),
    ensures
        ({
            let payload = payload_of(parts, digest::blake3_digest(source_bytes));
            let bytes = tsconfig::encoded_payload(payload);
            let paths = tsconfig_paths(cache_root, project_root, tsconfig_path, style);
            let looked_up = machine_cache::validated_read(
                true,
                paths.0,
                tsconfig_path,
                source_bytes,
                machine_cache::FileModel::Bytes(
                    machine_write::metadata_bytes(
                        tsconfig_path,
                        source_bytes.len(),
                        digest::blake3_digest(source_bytes),
                        paths.0,
                        bytes,
                        style,
                    ),
                ),
                parsed,
                machine_cache::FileModel::Bytes(bytes),
                style,
            );
            &&& looked_up is Hit
            &&& tsconfig::decoded_payload(looked_up->Hit_0.machine_bytes) == Some(payload)
            &&& hit_is_tsconfig(looked_up->Hit_0) == tsconfig_parses(
                tsconfig::tsconfig_json(payload),
            )
        }),
{
    let payload = payload_of(parts, digest::blake3_digest(source_bytes));
    let bytes = tsconfig::encoded_payload(payload);
    let paths = tsconfig_paths(cache_root, project_root, tsconfig_path, style);
    machine_write::lemma_write_then_read_hits(
        paths.0,
        tsconfig_path,
        source_bytes,
        bytes,
        parsed,
        style,
    );
    assert(tsconfig::kinds_of(payload.lists) =~= tsconfig::list_kinds());
    assert(tsconfig::kinds_of(payload.options) =~= tsconfig::option_kinds());
    tsconfig::lemma_payload_model_round_trip(payload);
}

// ---------------------------------------------------------------------------------------------
// Directories

/// Whether the tsconfig of a file may come from the cache: the path is absolute and does not lie
/// below `node_modules`.
pub open spec fn is_cache_eligible(file_path: Seq<char>, style: PathStyle) -> bool {
    directory::absolute_path(file_path, style) matches Some(directory) && !directory.parts.contains(
        "node_modules"@,
    )
}

pub fn tsconfig_file_path_is_dx_cache_eligible(file_path: &str, style: PathStyle) -> (r: bool)
    ensures
        r == is_cache_eligible(file_path@, style),
        r ==> path_text::is_absolute(file_path@, style),
        style is Unix ==> r == (path_text::is_absolute(file_path@, style)
            && !path_text::native_components(file_path@, style).contains("node_modules"@)),
{
    match split_absolute_path(file_path, style) {
        Some(directory) => !crate::name_set::contains_name(&directory.parts, "node_modules"),
        None => false,
    }
}

/// The directory in which the search for the tsconfig of a file starts.
pub open spec fn search_directory(
    file_path: Seq<char>,
    cwd: Option<Seq<char>>,
    style: PathStyle,
) -> Option<directory::DirectoryModel> {
    match directory::absolute_path(file_path, style) {
        Some(file) => directory::parent_directory(file),
        None => match cwd {
            None => None,
            Some(current) => match directory::absolute_path(current, style) {
                None => None,
                Some(base) => directory::parent_directory(
                    directory::DirectoryModel {
                        root: base.root,
                        parts: base.parts + path_text::native_components(file_path, style),
                    },
                ),
            },
        },
    }
}

pub fn tsconfig_search_directory(file_path: &str, cwd: &Option<String>, style: PathStyle) -> (r:
    Option<Directory>)
    ensures
        directory::opt_directory(r) == search_directory(file_path@, codec::opt_text(*cwd), style),
{
    let mut directory: Directory = match split_absolute_path(file_path, style) {
        Some(file) => file,
        None => match cwd {
            None => {
                return None;
            },
            Some(current) => {
                let mut base: Directory = split_absolute_path(current.as_str(), style)?;
                let mut below: Vec<String> = native_path_components(file_path, style);
                let ghost before = base.parts@;
                let ghost added = below@;
                base.parts.append(&mut below);
                assert(text::texts(base.parts@) =~= text::texts(before) + text::texts(added));
                base
            },
        },
    };
    if directory.pop() {
        Some(directory)
    } else {
        None
    }
}

/// The root that cache names are made below: the working directory, or else the directory of
/// `path`, or else `.`.
pub fn dx_machine_cache_project_root(path: &str, cwd: Option<String>, style: PathStyle) -> (root:
    String)
    ensures
        root@ == match codec::opt_text(cwd) {
            Some(current) => current,
            None => match directory::directory_of(path@, style) {
                Some(directory) => directory,
                None => "."@,
            },
        },
        cwd matches Some(current) ==> root@ == current@,
{
    match cwd {
        Some(current) => current,
        None => match path_directory(path, style) {
            Some(directory) => directory,
            None => ".".to_string(),
        },
    }
}

// ---------------------------------------------------------------------------------------------
// The nearest tsconfig

/// The tsconfig file that a directory would hold.
pub open spec fn candidate(directory: directory::DirectoryModel) -> Seq<char> {
    directory::child_text(directory, "tsconfig.json"@)
}

/// What the search waits for: whether the candidate of a directory exists that the cache knows
/// another file for, whether that file exists, or whether the candidate of a directory exists
/// that the cache knows nothing of.
#[derive(Debug, Clone, PartialEq, Eq)]
pub enum SearchStage {
    CachedCandidate(String),
    CachedPath(String),
    Candidate,
}

pub ghost enum StageModel {
    CachedCandidate(Seq<char>),
    CachedPath(Seq<char>),
    Candidate,
}

impl View for SearchStage {
    type V = StageModel;

    open spec fn view(&self) -> StageModel {
        match self {
            SearchStage::CachedCandidate(path) => StageModel::CachedCandidate(path@),
            SearchStage::CachedPath(path) => StageModel::CachedPath(path@),
            SearchStage::Candidate => StageModel::Candidate,
        }
    }
}

/// A search on its way up from a directory.
#[derive(Debug, Clone, PartialEq, Eq)]
pub struct NearestSearch {
    pub directory: Directory,
    pub searched: Vec<String>,
    pub stage: SearchStage,
}

pub ghost struct SearchModel {
    pub directory: directory::DirectoryModel,
    pub searched: Seq<Seq<char>>,
    pub stage: StageModel,
}

impl View for NearestSearch {
    type V = SearchModel;

    open spec fn view(&self) -> SearchModel {
        SearchModel {
            directory: self.directory@,
            searched: text::texts(self.searched@),
            stage: self.stage@,
        }
    }
}

/// The file that a search asks for.
pub open spec fn probed(search: SearchModel) -> Seq<char> {
    match search.stage {
        StageModel::CachedPath(path) => path,
        _ => candidate(search.directory),
    }
}

/// A search that has come to a directory.
pub open spec fn search_at(
    cache: Map<Seq<char>, Seq<char>>,
    directory: directory::DirectoryModel,
    searched: Seq<Seq<char>>,
) -> SearchModel {
    let key = directory::directory_text(directory);
    if cache.contains_key(key) {
        let stage = if cache[key] == candidate(directory) {
            StageModel::CachedPath(cache[key])
        } else {
            StageModel::CachedCandidate(cache[key])
        };
        SearchModel { directory, searched, stage }
    } else {
        SearchModel { directory, searched: searched.push(key), stage: StageModel::Candidate }
    }
}

/// The cache once every searched directory leads to `path`.
pub open spec fn remembered(
    cache: Map<Seq<char>, Seq<char>>,
    searched: Seq<Seq<char>>,
    path: Seq<char>,
) -> Map<Seq<char>, Seq<char>>
    decreases searched.len(),
{
    if searched.len() == 0 {
        cache
    } else {
        remembered(cache, searched.drop_last(), path).insert(searched.last(), path)
    }
}

pub ghost enum StepModel {
    Probe(SearchModel),
    Found(Seq<char>),
    NotFound,
}

/// What the answer to a probe leads to, and the cache afterwards.
pub open spec fn search_step(
    cache: Map<Seq<char>, Seq<char>>,
    search: SearchModel,
    is_file: bool,
) -> (Map<Seq<char>, Seq<char>>, StepModel) {
    let key = directory::directory_text(search.directory);
    match search.stage {
        StageModel::CachedCandidate(path) => if is_file {
            (
                remembered(cache, search.searched.push(key), candidate(search.directory)),
                StepModel::Found(candidate(search.directory)),
            )
        } else {
            (
                cache,
                StepModel::Probe(SearchModel { stage: StageModel::CachedPath(path), ..search }),
            )
        },
        StageModel::CachedPath(path) => if is_file {
            (remembered(cache, search.searched, path), StepModel::Found(path))
        } else {
            (
                cache.remove(key),
                StepModel::Probe(
                    SearchModel {
                        directory: search.directory,
                        searched: search.searched.push(key),
                        stage: StageModel::Candidate,
                    },
                ),
            )
        },
        StageModel::Candidate => if is_file {
            (
                remembered(cache, search.searched, candidate(search.directory)),
                StepModel::Found(candidate(search.directory)),
            )
        } else {
            match directory::parent_directory(search.directory) {
                None => (cache, StepModel::NotFound),
                Some(parent) => (
                    cache,
                    StepModel::Probe(search_at(cache, parent, search.searched)),
                ),
            }
        },
    }
}

#[derive(Debug, Clone, PartialEq, Eq)]
pub enum NearestStep {
    Probe(NearestSearch),
    Found(String),
    NotFound,
}

impl View for NearestStep {
    type V = StepModel;

    open spec fn view(&self) -> StepModel {
        match self {
            NearestStep::Probe(search) => StepModel::Probe(search@),
            NearestStep::Found(path) => StepModel::Found(path@),
            NearestStep::NotFound => StepModel::NotFound,
        }
    }
}

/// The tsconfig files that were loaded, by path, and the nearest tsconfig of each directory that
/// was searched.
pub struct TsconfigCache {
    yarn_pnp: bool,
    configs: dashmap::DashMap<String, usize, rustc_hash::FxBuildHasher>,
    nearest: dashmap::DashMap<String, String, rustc_hash::FxBuildHasher>,
}

impl TsconfigCache {
    /// The handles of the loaded tsconfig files, by the keys of their paths.
    pub closed spec fn configs(&self) -> Map<Seq<char>, usize> {
        shared_map::handle_entries(self.configs)
    }

    /// The nearest tsconfig of each directory.
    pub closed spec fn nearest(&self) -> Map<Seq<char>, Seq<char>> {
        shared_map::text_entries(self.nearest)
    }

    pub closed spec fn has_yarn_pnp(&self) -> bool {
        self.yarn_pnp
    }

    /// Whether the resolver follows Yarn's plug-and-play data.
    pub fn yarn_pnp(&self) -> (r: bool)
        ensures
            r == self.has_yarn_pnp(),
    {
        self.yarn_pnp
    }

    pub fn new(yarn_pnp: bool) -> (cache: Self)
        ensures
            cache.has_yarn_pnp() == yarn_pnp,
            cache.configs() == Map::<Seq<char>, usize>::empty(),
            cache.nearest() == Map::<Seq<char>, Seq<char>>::empty(),
    {
        TsconfigCache { yarn_pnp, configs: new_handles(), nearest: new_texts() }
    }

    pub fn clear(&mut self)
        ensures
            final(self).has_yarn_pnp() == old(self).has_yarn_pnp(),
            final(self).configs() == Map::<Seq<char>, usize>::empty(),
            final(self).nearest() == Map::<Seq<char>, Seq<char>>::empty(),
    {
        clear_handles(&mut self.configs);
        clear_texts(&mut self.nearest);
    }

    /// How many tsconfig files are loaded.
    pub fn size(&self) -> (size: u32)
        ensures
            size == if self.configs().len() <= u32::MAX {
                self.configs().len()
            } else {
                u32::MAX as nat
            },
    {
        let count: usize = count_handles(&self.configs);
        if count as u64 <= u32::MAX as u64 {
            count as u32
        } else {
            u32::MAX
        }
    }

    fn search_from(&self, directory: Directory, searched: Vec<String>) -> (search: NearestSearch)
        ensures
            search@ == search_at(self.nearest(), directory@, text::texts(searched@)),
    {
        let key: String = directory.path_text();
        match text_of(&self.nearest, key.as_str()) {
            Some(path) => {
                let own: String = directory.child_path("tsconfig.json");
                let stage: SearchStage = if same_text(path.as_str(), own.as_str()) {
                    SearchStage::CachedPath(path)
                } else {
                    SearchStage::CachedCandidate(path)
                };
                NearestSearch { directory, searched, stage }
            },
            None => {
                let mut searched: Vec<String> = searched;
                let ghost before = searched@;
                searched.push(key);
                assert(text::texts(searched@) =~= text::texts(before).push(key@));
                NearestSearch { directory, searched, stage: SearchStage::Candidate }
            },
        }
    }

    /// Starts the search for the nearest tsconfig of a file.
    pub fn begin_nearest_search(&self, file_path: &str, cwd: &Option<String>, style: PathStyle) -> (r:
        Option<NearestSearch>)
        ensures
            match search_directory(file_path@, codec::opt_text(*cwd), style) {
                None => r is None,
                Some(directory) => r matches Some(search) && search@ == search_at(
                    self.nearest(),
                    directory,
                    Seq::empty(),
                ),
            },
    {
        let directory: Directory = tsconfig_search_directory(file_path, cwd, style)?;
        let searched: Vec<String> = Vec::new();
        assert(text::texts(searched@) =~= Seq::empty());
        Some(self.search_from(directory, searched))
    }

    fn remember_nearest(&mut self, searched: &Vec<String>, path: &str)
        ensures
            final(self).has_yarn_pnp() == old(self).has_yarn_pnp(),
            final(self).configs() == old(self).configs(),
            final(self).nearest() == remembered(
                old(self).nearest(),
                text::texts(searched@),
                path@,
            ),
    {
        let ghost all = text::texts(searched@);
        let mut i: usize = 0;
        assert(all.take(0) =~= Seq::empty());
        while i < searched.len()
            invariant
                i <= searched.len(),
                all == text::texts(searched@),
                self.has_yarn_pnp() == old(self).has_yarn_pnp(),
                self.configs() == old(self).configs(),
                self.nearest() == remembered(old(self).nearest(), all.take(i as int), path@),
            decreases searched.len() - i,
        {
            insert_text(&mut self.nearest, searched[i].as_str(), path);
            proof {
                assert(all.take(i + 1).drop_last() =~= all.take(i as int));
                assert(all.take(i + 1).last() == searched@[i as int]@);
            }
            i = i + 1;
        }
        assert(all.take(i as int) =~= all);
    }

    /// Goes on with a search once it is known whether the probed path is a file.
    pub fn nearest_search_step(&mut self, search: NearestSearch, is_file: bool) -> (step: NearestStep)
        ensures
            (final(self).nearest(), step@) == search_step(old(self).nearest(), search@, is_file),
            final(self).configs() == old(self).configs(),
            final(self).has_yarn_pnp() == old(self).has_yarn_pnp(),
    {
        let mut search: NearestSearch = search;
        let key: String = search.directory.path_text();
        let own: String = search.directory.child_path("tsconfig.json");
        let ghost before = search.searched@;
        match search.stage {
            SearchStage::CachedCandidate(path) => {
                if is_file {
                    search.searched.push(key);
                    assert(text::texts(search.searched@) =~= text::texts(before).push(key@));
                    self.remember_nearest(&search.searched, own.as_str());
                    NearestStep::Found(own)
                } else {
                    NearestStep::Probe(
                        NearestSearch {
                            directory: search.directory,
                            searched: search.searched,
                            stage: SearchStage::CachedPath(path),
                        },
                    )
                }
            },
            SearchStage::CachedPath(path) => {
                if is_file {
                    self.remember_nearest(&search.searched, path.as_str());
                    NearestStep::Found(path)
                } else {
                    remove_text(&mut self.nearest, key.as_str());
                    search.searched.push(key);
                    assert(text::texts(search.searched@) =~= text::texts(before).push(key@));
                    NearestStep::Probe(
                        NearestSearch {
                            directory: search.directory,
                            searched: search.searched,
                            stage: SearchStage::Candidate,
                        },
                    )
                }
            },
            SearchStage::Candidate => {
                if is_file {
                    self.remember_nearest(&search.searched, own.as_str());
                    return NearestStep::Found(own);
                }
                if search.directory.pop() {
                    NearestStep::Probe(self.search_from(search.directory, search.searched))
                } else {
                    NearestStep::NotFound
                }
            },
        }
    }
}

impl NearestSearch {
    /// The path that the search asks for.
    pub fn probe(&self) -> (path: String)
        ensures
            path@ == probed(self@),
    {
        match &self.stage {
            SearchStage::CachedPath(path) => path.clone(),
            _ => self.directory.child_path("tsconfig.json"),
        }
    }
}

// ---------------------------------------------------------------------------------------------
// What a search finds

pub open spec fn stage_rank(stage: StageModel) -> nat {
    match stage {
        StageModel::CachedCandidate(_) => 2,
        StageModel::CachedPath(_) => 1,
        StageModel::Candidate => 0,
    }
}

/// A whole search over a file system that does not change meanwhile: the cache afterwards, and
/// the file that was found.
pub closed spec fn searched_through(
    cache: Map<Seq<char>, Seq<char>>,
    search: SearchModel,
    files: spec_fn(Seq<char>) -> bool,
) -> (Map<Seq<char>, Seq<char>>, Option<Seq<char>>)
    decreases search.directory.parts.len(), stage_rank(search.stage),
{
    match search_step(cache, search, files(probed(search))) {
        (after, StepModel::Found(path)) => (after, Some(path)),
        (after, StepModel::NotFound) => (after, None),
        (after, StepModel::Probe(next)) => searched_through(after, next, files),
    }
}

/// A whole search is the first step and then the rest of the search.
pub proof fn lemma_search_by_steps(
    cache: Map<Seq<char>, Seq<char>>,
    search: SearchModel,
    files: spec_fn(Seq<char>) -> bool,
)
    ensures
        searched_through(cache, search, files) == match search_step(
            cache,
            search,
            files(probed(search)),
        ) {
            (after, StepModel::Found(path)) => (after, Some(path)),
            (after, StepModel::NotFound) => (after, None),
            (after, StepModel::Probe(next)) => searched_through(after, next, files),
        },
{
}

/// A search finds only files that exist.
pub proof fn lemma_found_file_exists(
    cache: Map<Seq<char>, Seq<char>>,
    search: SearchModel,
    files: spec_fn(Seq<char>) -> bool,
)
    ensures
        searched_through(cache, search, files).1 matches Some(path) ==> files(path),
    decreases search.directory.parts.len(), stage_rank(search.stage),
{
    match search_step(cache, search, files(probed(search))) {
        (after, StepModel::Probe(next)) => {
            lemma_found_file_exists(after, next, files);
        },
        _ => {},
    }
}

/// The tsconfig of the nearest directory that has one.
pub open spec fn nearest_candidate(
    directory: directory::DirectoryModel,
    files: spec_fn(Seq<char>) -> bool,
) -> Option<Seq<char>>
    decreases directory.parts.len(),
{
    if files(candidate(directory)) {
        Some(candidate(directory))
    } else if directory.parts.len() == 0 {
        None
    } else {
        nearest_candidate(
            directory::DirectoryModel { root: directory.root, parts: directory.parts.drop_last() },
            files,
        )
    }
}

/// With nothing cached, a search finds the tsconfig of the nearest directory that has one.
pub proof fn lemma_fresh_search_finds_nearest(
    directory: directory::DirectoryModel,
    searched: Seq<Seq<char>>,
    files: spec_fn(Seq<char>) -> bool,
)
    ensures
        searched_through(
            Map::empty(),
            search_at(Map::empty(), directory, searched),
            files,
        ).1 == nearest_candidate(directory, files),
    decreases directory.parts.len(),
{
    let search = search_at(Map::empty(), directory, searched);
    match directory::parent_directory(directory) {
        Some(parent) => {
            lemma_fresh_search_finds_nearest(parent, search.searched, files);
        },
        None => {},
    }
}

/// Every directory that was searched leads to the tsconfig, and no other entry changes.
pub proof fn lemma_remembered(
    cache: Map<Seq<char>, Seq<char>>,
    searched: Seq<Seq<char>>,
    path: Seq<char>,
    key: Seq<char>,
)
    ensures
        searched.contains(key) ==> remembered(cache, searched, path).contains_key(key)
            && remembered(cache, searched, path)[key] == path,
        !searched.contains(key) ==> remembered(cache, searched, path).contains_key(key)
            == cache.contains_key(key) && (cache.contains_key(key) ==> remembered(
            cache,
            searched,
            path,
        )[key] == cache[key]),
    decreases searched.len(),
{
    if searched.len() > 0 {
        let before = searched.drop_last();
        lemma_remembered(cache, before, path, key);
        if searched.contains(key) && searched.last() != key {
            let i = choose|i: int| 0 <= i < searched.len() && searched[i] == key;
            assert(before[i] == key);
        }
        if before.contains(key) {
            let i = choose|i: int| 0 <= i < before.len() && before[i] == key;
            assert(searched[i] == key);
        }
        assert(searched[searched.len() - 1] == searched.last());
    }
}

/// Whether a search has passed a directory or found it in the cache.
spec fn is_tracked(
    cache: Map<Seq<char>, Seq<char>>,
    search: SearchModel,
    key: Seq<char>,
) -> bool {
    ||| search.searched.contains(key)
    ||| {
        &&& key == directory::directory_text(search.directory)
        &&& cache.contains_key(key)
        &&& search.stage == StageModel::CachedPath(cache[key]) || search.stage
            == StageModel::CachedCandidate(cache[key])
    }
}

proof fn lemma_search_remembers(
    cache: Map<Seq<char>, Seq<char>>,
    search: SearchModel,
    files: spec_fn(Seq<char>) -> bool,
    key: Seq<char>,
)
    requires
        is_tracked(cache, search, key),
    ensures
        ({
            let (after, found) = searched_through(cache, search, files);
            found matches Some(path) ==> after.contains_key(key) && after[key] == path
        }),
    decreases search.directory.parts.len(), stage_rank(search.stage),
{
    let here = directory::directory_text(search.directory);
    let longer = search.searched.push(here);
    assert(longer.last() == here);
    assert(longer.contains(here)) by {
        assert(longer[longer.len() - 1] == here);
    }
    if search.searched.contains(key) {
        let i = choose|i: int| 0 <= i < search.searched.len() && search.searched[i] == key;
        assert(longer[i] == key);
    }
    match search_step(cache, search, files(probed(search))) {
        (after, StepModel::Found(path)) => {
            lemma_remembered(cache, search.searched, path, key);
            lemma_remembered(cache, longer, path, key);
        },
        (after, StepModel::NotFound) => {},
        (after, StepModel::Probe(next)) => {
            if search.stage is Candidate {
                let parent = directory::parent_directory(search.directory)->0;
                let above = search.searched.push(directory::directory_text(parent));
                let i = choose|i: int| 0 <= i < search.searched.len() && search.searched[i] == key;
                assert(above[i] == key);
            }
            lemma_search_remembers(after, next, files, key);
        },
    }
}

proof fn lemma_own_candidate_first(
    cache: Map<Seq<char>, Seq<char>>,
    directory: directory::DirectoryModel,
    searched: Seq<Seq<char>>,
    files: spec_fn(Seq<char>) -> bool,
)
    requires
        files(candidate(directory)),
    ensures
        searched_through(cache, search_at(cache, directory, searched), files).1 == Some(
            candidate(directory),
        ),
{
}

/// Over a file system that stays the same, a second search for the same directory finds the same
/// file.
pub proof fn lemma_repeated_search_agrees(
    cache: Map<Seq<char>, Seq<char>>,
    directory: directory::DirectoryModel,
    files: spec_fn(Seq<char>) -> bool,
)
    ensures
        ({
            let (after, found) = searched_through(
                cache,
                search_at(cache, directory, Seq::empty()),
                files,
            );
            found is Some ==> searched_through(
                after,
                search_at(after, directory, Seq::empty()),
                files,
            ).1 == found
        }),
{
    let key = directory::directory_text(directory);
    let start = search_at(cache, directory, Seq::empty());
    let (after, found) = searched_through(cache, start, files);
    if found is Some {
        if files(candidate(directory)) {
            lemma_own_candidate_first(cache, directory, Seq::empty(), files);
            lemma_own_candidate_first(after, directory, Seq::empty(), files);
        } else {
            assert(is_tracked(cache, start, key)) by {
                if !cache.contains_key(key) {
                    assert(start.searched[0] == key);
                }
            }
            lemma_search_remembers(cache, start, files, key);
            lemma_found_file_exists(cache, start, files);
            let again = search_at(after, directory, Seq::empty());
            lemma_search_by_steps(after, again, files);
            let second = SearchModel { stage: StageModel::CachedPath(after[key]), ..again };
            lemma_search_by_steps(after, second, files);
        }
    }
}

// ---------------------------------------------------------------------------------------------
// Loading a tsconfig

/// What a look-up left to be repaired: the digest is that of the source at this path.
#[derive(Debug, Clone, PartialEq, Eq)]
pub struct DxTsconfigRepair {
    pub tsconfig_path: String,
    pub source_hash: [u8; 32],
}

/// What the cache knew of a file's tsconfig.
#[derive(Debug, Clone, PartialEq, Eq)]
pub struct DxTsconfigLookup {
    pub tsconfig: Option<usize>,
    pub repair: Option<DxTsconfigRepair>,
}

impl Default for DxTsconfigLookup {
    fn default() -> (lookup: Self)
        ensures
            lookup.tsconfig is None,
            lookup.repair is None,
    {
        DxTsconfigLookup { tsconfig: None, repair: None }
    }
}

/// What to do with a tsconfig that the resolver found.
#[derive(Debug, Clone, Copy, PartialEq, Eq, Structural)]
pub struct ResolvedTsconfig {
    pub handle: usize,
    pub is_new: bool,
}

/// The handles of the loaded files with one for `path`, unless some spelling of it has one.
pub open spec fn kept(
    configs: Map<Seq<char>, usize>,
    path: Seq<char>,
    handle: usize,
    style: PathStyle,
) -> Map<Seq<char>, usize> {
    let key = path_text::path_key(path, style);
    if configs.contains_key(key) {
        configs
    } else {
        configs.insert(key, handle)
    }
}

/// The handle of a path, where it is loaded.
pub open spec fn handle_at(
    configs: Map<Seq<char>, usize>,
    path: Seq<char>,
    style: PathStyle,
) -> Option<usize> {
    let key = path_text::path_key(path, style);
    if configs.contains_key(key) {
        Some(configs[key])
    } else {
        None
    }
}

/// All spellings of a path share one entry: the file that was loaded first under one of them is
/// found under every other, another is not kept beside it, and both count once.
pub proof fn lemma_equal_paths_share_one_entry(
    configs: Map<Seq<char>, usize>,
    first: Seq<char>,
    second: Seq<char>,
    first_handle: usize,
    second_handle: usize,
    style: PathStyle,
)
    requires
        path_text::same_path(first, second, style),
        configs.dom().finite(),
    ensures
        ({
            let once = kept(configs, first, first_handle, style);
            &&& kept(once, second, second_handle, style) == once
            &&& handle_at(once, second, style) is Some
            &&& handle_at(once, second, style) == handle_at(once, first, style)
            &&& once.len() == configs.len() + if handle_at(configs, first, style) is Some {
                0nat
            } else {
                1
            }
        }),
{
    path_text::lemma_same_path_same_key(first, second, style);
}

/// What is kept for a path leaves every other path as it was.
pub proof fn lemma_other_paths_keep_their_entries(
    configs: Map<Seq<char>, usize>,
    path: Seq<char>,
    other: Seq<char>,
    handle: usize,
    style: PathStyle,
)
    requires
        !path_text::same_path(path, other, style),
    ensures
        handle_at(kept(configs, path, handle, style), other, style) == handle_at(
            configs,
            other,
            style,
        ),
{
    if path_text::path_key(path, style) == path_text::path_key(other, style) {
        path_text::lemma_same_key_same_path(path, other, style);
    }
}

impl TsconfigCache {
    /// The configuration under which the cache is consulted for a file, where it is at all.
    pub fn dx_lookup_config(
        file_path: &str,
        project_root: &str,
        env_value: Option<String>,
        style: PathStyle,
    ) -> (r: Option<DxMachineCacheConfig>)
        ensures
            r is Some == (is_cache_eligible(file_path@, style) && machine_cache::env_enables(
                env_value,
            )),
            r matches Some(config) ==> config.enabled && config.root@ == machine_cache::cache_root(
                project_root@,
                style,
            ) && config.style == style,
    {
        if !tsconfig_file_path_is_dx_cache_eligible(file_path, style) {
            return None;
        }
        DxMachineCacheConfig::from_env_value_if_enabled(project_root, env_value, style)
    }

    /// The tsconfig at a path, where it is loaded already.
    pub fn loaded(&self, tsconfig_path: &str, style: PathStyle) -> (handle: Option<usize>)
        ensures
            handle == handle_at(self.configs(), tsconfig_path@, style),
    {
        handle_of(&self.configs, path_key_text(tsconfig_path, style).as_str())
    }

    /// Takes what was read for the nearest tsconfig. A tsconfig that came of it is kept under
    /// `handle`, unless one with its path was loaded meanwhile.
    pub fn take_dx_tsconfig(
        &mut self,
        tsconfig_path: &str,
        read: &Option<DxTsconfigMachineCacheRead>,
        handle: usize,
        style: PathStyle,
    ) -> (lookup: DxTsconfigLookup)
        ensures
            final(self).nearest() == old(self).nearest(),
            final(self).has_yarn_pnp() == old(self).has_yarn_pnp(),
            match *read {
                None => final(self).configs() == old(self).configs() && lookup.tsconfig is None
                    && lookup.repair is None,
                Some(found) => match found.tsconfig {
                    Some(parsed) => {
                        &&& final(self).configs() == kept(
                            old(self).configs(),
                            parsed.path@,
                            handle,
                            style,
                        )
                        &&& lookup.tsconfig is Some
                        &&& lookup.tsconfig == handle_at(
                            final(self).configs(),
                            parsed.path@,
                            style,
                        )
                        &&& lookup.repair is None
                    },
                    None => {
                        &&& final(self).configs() == old(self).configs()
                        &&& lookup.tsconfig is None
                        &&& lookup.repair is Some == (found.repair_source_hash is Some)
                        &&& lookup.repair matches Some(repair) ==> repair.tsconfig_path@
                            == tsconfig_path@ && Some(repair.source_hash)
                            == found.repair_source_hash
                    },
                },
            },
    {
        match read {
            None => DxTsconfigLookup::default(),
            Some(found) => match &found.tsconfig {
                Some(parsed) => {
                    let key: String = path_key_text(parsed.path.as_str(), style);
                    let present: usize = keep_handle(&mut self.configs, key.as_str(), handle);
                    DxTsconfigLookup { tsconfig: Some(present), repair: None }
                },
                None => match found.repair_source_hash {
                    Some(source_hash) => DxTsconfigLookup {
                        tsconfig: None,
                        repair: Some(
                            DxTsconfigRepair {
                                tsconfig_path: tsconfig_path.to_string(),
                                source_hash,
                            },
                        ),
                    },
                    None => DxTsconfigLookup::default(),
                },
            },
        }
    }

    /// Takes a tsconfig that the resolver found. Its payload is written exactly where it is new.
    pub fn take_resolved_tsconfig(
        &mut self,
        tsconfig_path: &str,
        handle: usize,
        style: PathStyle,
    ) -> (r: ResolvedTsconfig)
        ensures
            final(self).nearest() == old(self).nearest(),
            final(self).has_yarn_pnp() == old(self).has_yarn_pnp(),
            final(self).configs() == kept(old(self).configs(), tsconfig_path@, handle, style),
            Some(r.handle) == handle_at(final(self).configs(), tsconfig_path@, style),
            r.is_new == (handle_at(old(self).configs(), tsconfig_path@, style) is None),
    {
        let key: String = path_key_text(tsconfig_path, style);
        match handle_of(&self.configs, key.as_str()) {
            Some(present) => ResolvedTsconfig { handle: present, is_new: false },
            None => ResolvedTsconfig {
                handle: keep_handle(&mut self.configs, key.as_str(), handle),
                is_new: true,
            },
        }
    }
}

/// The digest that a look-up left for this tsconfig, where it is the one to be repaired.
pub fn repair_source_hash_for(
    repair: &Option<DxTsconfigRepair>,
    tsconfig_path: &str,
    style: PathStyle,
) -> (r: Option<[u8; 32]>)
    ensures
        r == match *repair {
            Some(present) => if path_text::same_path(present.tsconfig_path@, tsconfig_path@, style) {
                Some(present.source_hash)
            } else {
                None
            },
            None => None,
        },
{
    match repair {
        Some(present) => if paths_are_equal(present.tsconfig_path.as_str(), tsconfig_path, style) {
            Some(present.source_hash)
        } else {
            None
        },
        None => None,
    }
}

/// A relative path is searched for where its spelling below the working directory is.
pub proof fn lemma_relative_path_is_searched_below_cwd(
    file_path: Seq<char>,
    cwd: Seq<char>,
    other: Option<Seq<char>>,
)
    requires
        path_text::is_absolute(cwd, PathStyle::Unix),
        path_text::is_relative(file_path, PathStyle::Unix),
    ensures
        search_directory(file_path, Some(cwd), PathStyle::Unix) == search_directory(
            path_text::joined_path(cwd, file_path, PathStyle::Unix),
            other,
            PathStyle::Unix,
        ),
        search_directory(file_path, None, PathStyle::Unix) is None,
{
    let style = PathStyle::Unix;
    path_text::lemma_joined_path_components(cwd, file_path, style);
    directory::lemma_absolute_path(cwd, style);
    directory::lemma_absolute_path(file_path, style);
    directory::lemma_absolute_path(path_text::joined_path(cwd, file_path, style), style);
}

/// An absolute path is searched for from its own directory on, whatever the working directory is.
pub proof fn lemma_absolute_path_is_searched_in_its_directory(
    file_path: Seq<char>,
    cwd: Option<Seq<char>>,
    style: PathStyle,
)
    requires
        directory::absolute_path(file_path, style) is Some,
    ensures
        search_directory(file_path, cwd, style) == directory::parent_directory(
            directory::absolute_path(file_path, style)->0,
        ),
{
}

/// The directory so many levels up.
pub open spec fn ancestor(
    directory: directory::DirectoryModel,
    up: nat,
) -> directory::DirectoryModel {
    directory::DirectoryModel {
        root: directory.root,
        parts: directory.parts.take(directory.parts.len() - up),
    }
}

/// A fresh search finds the tsconfig of the directory itself or of the nearest directory above that
/// has one, and nothing exactly where none has.
pub proof fn lemma_nearest_tsconfig_is_found(
    directory: directory::DirectoryModel,
    files: spec_fn(Seq<char>) -> bool,
)
    ensures
        match searched_through(
            Map::empty(),
            search_at(Map::empty(), directory, Seq::empty()),
            files,
        ).1 {
            Some(path) => exists|up: nat|
                up <= directory.parts.len() && path == directory::child_text(
                    #[trigger] ancestor(directory, up),
                    "tsconfig.json"@,
                ) && files(path) && forall|below: nat|
                    below < up ==> !files(
                        directory::child_text(
                            #[trigger] ancestor(directory, below),
                            "tsconfig.json"@,
                        ),
                    ),
            None => forall|up: nat|
                up <= directory.parts.len() ==> !files(
                    directory::child_text(#[trigger] ancestor(directory, up), "tsconfig.json"@),
                ),
        },
{
    lemma_fresh_search_finds_nearest(directory, Seq::empty(), files);
    lemma_nearest_candidate(directory, files);
}

proof fn lemma_nearest_candidate(
    directory: directory::DirectoryModel,
    files: spec_fn(Seq<char>) -> bool,
)
    ensures
        match nearest_candidate(directory, files) {
            Some(path) => exists|up: nat|
                up <= directory.parts.len() && path == directory::child_text(
                    #[trigger] ancestor(directory, up),
                    "tsconfig.json"@,
                ) && files(path) && forall|below: nat|
                    below < up ==> !files(
                        directory::child_text(
                            #[trigger] ancestor(directory, below),
                            "tsconfig.json"@,
                        ),
                    ),
            None => forall|up: nat|
                up <= directory.parts.len() ==> !files(
                    directory::child_text(#[trigger] ancestor(directory, up), "tsconfig.json"@),
                ),
        },
    decreases directory.parts.len(),
{
    assert(ancestor(directory, 0) =~= directory) by {
        assert(directory.parts.take(directory.parts.len() as int) =~= directory.parts);
    }
    if files(candidate(directory)) {
        assert(ancestor(directory, 0) == directory);
    } else if directory.parts.len() == 0 {
        assert forall|up: nat| up <= directory.parts.len() implies !files(
            directory::child_text(#[trigger] ancestor(directory, up), "tsconfig.json"@),
        ) by {
            assert(up == 0);
        }
    } else {
        let parent = directory::DirectoryModel {
            root: directory.root,
            parts: directory.parts.drop_last(),
        };
        lemma_nearest_candidate(parent, files);
        assert forall|up: nat| up < directory.parts.len() implies #[trigger] ancestor(parent, up)
            == ancestor(directory, up + 1) by {
            assert(parent.parts.take(parent.parts.len() - up) =~= directory.parts.take(
                directory.parts.len() - (up + 1),
            ));
        }
        match nearest_candidate(directory, files) {
            Some(path) => {
                let up = choose|up: nat|
                    up <= parent.parts.len() && path == directory::child_text(
                        #[trigger] ancestor(parent, up),
                        "tsconfig.json"@,
                    ) && files(path) && forall|below: nat|
                        below < up ==> !files(
                            directory::child_text(
                                #[trigger] ancestor(parent, below),
                                "tsconfig.json"@,
                            ),
                        );
                assert(ancestor(parent, up) == ancestor(directory, up + 1));
                assert forall|below: nat| below < up + 1 implies !files(
                    directory::child_text(
                        #[trigger] ancestor(directory, below),
                        "tsconfig.json"@,
                    ),
                ) by {
                    if below > 0 {
                        let less = (below - 1) as nat;
                        assert(ancestor(parent, less) == ancestor(directory, less + 1));
                    }
                }
            },
            None => {
                assert forall|up: nat| up <= directory.parts.len() implies !files(
                    directory::child_text(#[trigger] ancestor(directory, up), "tsconfig.json"@),
                ) by {
                    if up > 0 {
                        let less = (up - 1) as nat;
                        assert(ancestor(parent, less) == ancestor(directory, less + 1));
                    }
                }
            },
        }
    }
}

} // verus!
