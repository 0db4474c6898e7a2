//! The machine cache: where artifacts live, when they may be read and what is written.
//!
//! Files are touched by the caller. Each function here takes what was found on disk as a plain
//! value and says what follows from it.

use vstd::prelude::*;
use vstd::utf8::*;
use crate::cache_name;
use crate::cache_name::{cache_artifact_file_name, cache_stem_for_parts};
use crate::digest;
use crate::digest::{blake3_hash, blake3_hex_matches_hash, is_blake3_hex};
use crate::metadata;
use crate::metadata::{parse_canonical_machine_metadata_document, MachineCachePolicy,
    MachineMetadataDocument, MachineMetadataEntry, DX_MACHINE_MAX_BYTES,
    DX_MACHINE_METADATA_SCHEMA};
use crate::path_text;
use crate::path_text::{join_path, metadata_path_matches, relative_components, PathStyle};
use crate::text;
use crate::text::{chars_of, same_text};

verus! {

pub const DX_MACHINE_METADATA_MAX_BYTES: u64 = 65_536;

pub const DX_MACHINE_READ_PREALLOC_MAX_BYTES: u64 = 262_144;

/// What a look into the cache came to.
#[derive(Debug, Clone, PartialEq, Eq)]
pub enum DxMachineCacheStatus<T> {
    Hit(T),
    Miss,
    Disabled,
    Invalid,
}

/// Where the cache lives and whether it is in use.
#[derive(Debug, Clone, PartialEq, Eq)]
pub struct DxMachineCacheConfig {
    pub enabled: bool,
    pub root: String,
    pub style: PathStyle,
}

/// The two files of one artifact.
#[derive(Debug, Clone, PartialEq, Eq)]
pub struct DxMachineCachePaths {
    pub machine: String,
    pub metadata: String,
}

/// A validated artifact and the digest of the source that it was validated for.
#[derive(Debug, Clone, PartialEq, Eq)]
pub struct DxMachineCacheHit {
    pub machine_bytes: Vec<u8>,
    pub source_hash: [u8; 32],
}

pub ghost struct HitModel {
    pub machine_bytes: Seq<u8>,
    pub source_hash: Seq<u8>,
}

impl View for DxMachineCacheHit {
    type V = HitModel;

    open spec fn view(&self) -> HitModel {
        HitModel { machine_bytes: self.machine_bytes@, source_hash: self.source_hash@ }
    }
}

pub open spec fn status_model(status: DxMachineCacheStatus<DxMachineCacheHit>) -> DxMachineCacheStatus<
    HitModel,
> {
    match status {
        DxMachineCacheStatus::Hit(hit) => DxMachineCacheStatus::Hit(hit@),
        DxMachineCacheStatus::Miss => DxMachineCacheStatus::Miss,
        DxMachineCacheStatus::Disabled => DxMachineCacheStatus::Disabled,
        DxMachineCacheStatus::Invalid => DxMachineCacheStatus::Invalid,
    }
}

/// What came of opening and reading a file.
#[derive(Debug, Clone, PartialEq, Eq)]
pub enum FileRead {
    NotFound,
    OpenFailed,
    ReadFailed,
    Bytes(Vec<u8>),
}

pub ghost enum FileModel {
    NotFound,
    OpenFailed,
    ReadFailed,
    Bytes(Seq<u8>),
}

impl View for FileRead {
    type V = FileModel;

    open spec fn view(&self) -> FileModel {
        match self {
            FileRead::NotFound => FileModel::NotFound,
            FileRead::OpenFailed => FileModel::OpenFailed,
            FileRead::ReadFailed => FileModel::ReadFailed,
            FileRead::Bytes(bytes) => FileModel::Bytes(bytes@),
        }
    }
}

// ---------------------------------------------------------------------------------------------
// The switch

/// The characters with Unicode's `White_Space` property.
pub open spec fn is_white_space(c: char) -> bool {
    let n = c as u32;
    ||| 9 <= n <= 13
    ||| n == 0x20
    ||| n == 0x85
    ||| n == 0xa0
    ||| n == 0x1680
    ||| 0x2000 <= n <= 0x200a
    ||| n == 0x2028
    ||| n == 0x2029
    ||| n == 0x202f
    ||| n == 0x205f
    ||| n == 0x3000
}

fn char_is_white_space(c: char) -> (r: bool)
    ensures
        r == is_white_space(c),
{
    let n: u32 = c as u32;
    (9 <= n && n <= 13) || n == 0x20 || n == 0x85 || n == 0xa0 || n == 0x1680 || (0x2000 <= n && n
        <= 0x200a) || n == 0x2028 || n == 0x2029 || n == 0x202f || n == 0x205f || n == 0x3000
}

/// `value` without white space at either end.
pub open spec fn trimmed(value: Seq<char>) -> Seq<char>
    decreases value.len(),
{
    if value.len() == 0 {
        value
    } else if is_white_space(value[0]) {
        trimmed(value.drop_first())
    } else if is_white_space(value.last()) {
        trimmed(value.drop_last())
    } else {
        value
    }
}

fn trim_text(value: &str) -> (r: String)
    ensures
        r@ == trimmed(value@),
{
    let chars: Vec<char> = chars_of(value);
    let mut start: usize = 0;
    let mut end: usize = chars.len();
    assert(value@.subrange(0, value@.len() as int) =~= value@);
    while start < end && char_is_white_space(chars[start])
        invariant
            chars@ == value@,
            start <= end <= chars.len(),
            trimmed(value@.subrange(start as int, end as int)) == trimmed(value@),
        decreases end - start,
    {
        assert(value@.subrange(start as int, end as int).drop_first() =~= value@.subrange(
            start + 1,
            end as int,
        ));
        start = start + 1;
    }
    while start < end && char_is_white_space(chars[end - 1])
        invariant
            chars@ == value@,
            start <= end <= chars.len(),
            start < end ==> !is_white_space(value@[start as int]),
            trimmed(value@.subrange(start as int, end as int)) == trimmed(value@),
        decreases end - start,
    {
        assert(value@.subrange(start as int, end as int).drop_last() =~= value@.subrange(
            start as int,
            end - 1,
        ));
        end = end - 1;
    }
    let mut output: String = String::new();
    let mut i: usize = start;
    while i < end
        invariant
            chars@ == value@,
            start <= i <= end <= chars.len(),
            output@ == value@.subrange(start as int, i as int),
        decreases end - i,
    {
        output.push(chars[i]);
        assert(value@.subrange(start as int, i + 1) =~= value@.subrange(
            start as int,
            i as int,
        ).push(value@[i as int]));
        i = i + 1;
    }
    output
}

pub open spec fn is_falsey(value: Seq<char>) -> bool {
    ||| value == "0"@
    ||| path_text::lowered(value) == path_text::lowered("false"@)
    ||| path_text::lowered(value) == path_text::lowered("off"@)
    ||| path_text::lowered(value) == path_text::lowered("no"@)
}

/// Whether an environment value switches something on: it is neither blank nor a falsey word.
pub open spec fn value_enables(value: Seq<char>) -> bool {
    trimmed(value).len() > 0 && !is_falsey(trimmed(value))
}

pub fn is_falsey_dx_machine_cache_env(value: &str) -> (r: bool)
    ensures
        r == is_falsey(value@),
{
    same_text(value, "0") || path_text::equals_ignoring_case(value, "false")
        || path_text::equals_ignoring_case(value, "off") || path_text::equals_ignoring_case(
        value,
        "no",
    )
}

pub fn env_value_enables_dx_machine_cache(value: &str) -> (r: bool)
    ensures
        r == value_enables(value@),
        exists|core: Seq<char>| #[trigger]
            is_core(value@, core) && r == (core.len() > 0 && core != "0"@ && path_text::lowered(core)
                != path_text::lowered("false"@) && path_text::lowered(core) != path_text::lowered(
                "off"@,
            ) && path_text::lowered(core) != path_text::lowered("no"@)),
{
    proof {
        lemma_trimmed(value@);
    }
    let word: String = trim_text(value);
    !word.as_str().is_empty() && !is_falsey_dx_machine_cache_env(word.as_str())
}

pub open spec fn env_enables(value: Option<String>) -> bool {
    value matches Some(text) && value_enables(text@)
}

pub fn env_enables_dx_machine_cache(env_value: &Option<String>) -> (r: bool)
    ensures
        r == env_enables(*env_value),
{
    match env_value {
        Some(value) => env_value_enables_dx_machine_cache(value.as_str()),
        None => false,
    }
}

pub open spec fn cache_root(cwd: Seq<char>, style: PathStyle) -> Seq<char> {
    path_text::joined_path(path_text::joined_path(cwd, ".dx"@, style), "rolldown"@, style)
}

pub open spec fn artifact_paths(
    root: Seq<char>,
    project_root: Seq<char>,
    namespace: Seq<char>,
    source_path: Seq<char>,
    style: PathStyle,
) -> (Seq<char>, Seq<char>) {
    let stem = cache_name::stem_text(
        namespace,
        path_text::relative_parts(project_root, source_path, style),
    );
    (
        path_text::joined_path(root, stem + ".machine"@, style),
        path_text::joined_path(root, stem + ".machine.meta.json"@, style),
    )
}

impl DxMachineCacheConfig {
    pub fn from_env_value(cwd: &str, env_value: Option<String>, style: PathStyle) -> (config: Self)
        ensures
            config.enabled == env_enables(env_value),
            config.root@ == cache_root(cwd@, style),
            config.style == style,
            env_value is None ==> !config.enabled,
            config.root@ == path_text::joined_path(
                path_text::joined_path(cwd@, ".dx"@, style),
                "rolldown"@,
                style,
            ),
    {
        let enabled: bool = env_enables_dx_machine_cache(&env_value);
        let hidden: String = join_path(cwd, ".dx", style);
        DxMachineCacheConfig { enabled, root: join_path(hidden.as_str(), "rolldown", style), style }
    }

    pub fn from_env_value_if_enabled(
        cwd: &str,
        env_value: Option<String>,
        style: PathStyle,
    ) -> (config: Option<Self>)
        ensures
            config is Some == env_enables(env_value),
            config matches Some(c) ==> c.enabled && c.root@ == cache_root(cwd@, style) && c.style == style,
    {
        if env_enables_dx_machine_cache(&env_value) {
            let hidden: String = join_path(cwd, ".dx", style);
            Some(
                DxMachineCacheConfig {
                    enabled: true,
                    root: join_path(hidden.as_str(), "rolldown", style),
                    style,
                },
            )
        } else {
            None
        }
    }

    pub fn paths_for_source(&self, project_root: &str, namespace: &str, source_path: &str) -> (paths:
        DxMachineCachePaths)
        ensures
            (paths.machine@, paths.metadata@) == artifact_paths(
                self.root@,
                project_root@,
                namespace@,
                source_path@,
                self.style,
            ),
    {
        let parts: Vec<String> = relative_components(project_root, source_path, self.style);
        let stem: String = cache_stem_for_parts(namespace, &parts);
        let machine: String = cache_artifact_file_name(stem.as_str(), ".machine");
        let metadata: String = cache_artifact_file_name(stem.as_str(), ".machine.meta.json");
        DxMachineCachePaths {
            machine: join_path(self.root.as_str(), machine.as_str(), self.style),
            metadata: join_path(self.root.as_str(), metadata.as_str(), self.style),
        }
    }

    pub fn paths_for_source_if_enabled(
        &self,
        project_root: &str,
        namespace: &str,
        source_path: &str,
    ) -> (paths: Option<DxMachineCachePaths>)
        ensures
            paths is Some == self.enabled,
            paths matches Some(p) ==> (p.machine@, p.metadata@) == artifact_paths(
                self.root@,
                project_root@,
                namespace@,
                source_path@,
                self.style,
            ),
    {
        if self.enabled {
            Some(self.paths_for_source(project_root, namespace, source_path))
        } else {
            None
        }
    }
}

/// Below an absolute project root, a source is found under the same names by its absolute path, by
/// its path below the root, and by a lower-case spelling of that.
pub proof fn lemma_spellings_of_a_source_share_names(
    root: Seq<char>,
    project_root: Seq<char>,
    namespace: Seq<char>,
    relative_path: Seq<char>,
    style: PathStyle,
)
    requires
        path_text::is_absolute(project_root, style),
        path_text::is_relative(relative_path, style),
    ensures
        ({
            let names = artifact_paths(root, project_root, namespace, relative_path, style);
            &&& artifact_paths(
                root,
                project_root,
                namespace,
                path_text::joined_path(project_root, relative_path, style),
                style,
            ) == names
            &&& artifact_paths(
                root,
                project_root,
                namespace,
                path_text::lowered(relative_path),
                style,
            ) == names
        }),
{
    let low = path_text::lowered(relative_path);
    assert(path_text::is_relative(low, style)) by {
        if relative_path.len() > 0 {
            assert(low[0] == text::lower(relative_path[0]));
        }
    }
    path_text::lemma_relative_parts_agree(project_root, relative_path, style);
    path_text::lemma_relative_parts_agree(project_root, low, style);
    path_text::lemma_lowered_components(relative_path, style);
    cache_name::lemma_stem_ignores_case(
        namespace,
        path_text::native_components(relative_path, style),
    );
}

// ---------------------------------------------------------------------------------------------
// Validation

pub open spec fn size_benefits(source_len: nat, machine_len: nat) -> bool {
    0 < machine_len < source_len
}

/// Whether an artifact is worth keeping: it is not empty and smaller than its source.
pub fn machine_artifact_benefits_source_size(source_len: u64, machine_len: u64) -> (r: bool)
    ensures
        r == size_benefits(source_len as nat, machine_len as nat),
        r == (0 < machine_len && machine_len < source_len),
{
    machine_len > 0 && machine_len < source_len
}

pub open spec fn policy_holds(cache: MachineCachePolicy) -> bool {
    cache.rebuildable && cache.fallback_on_mismatch
}

pub fn validate_cache_policy(cache: &MachineCachePolicy) -> (r: bool)
    ensures
        r == policy_holds(*cache),
        r == (cache.rebuildable && cache.fallback_on_mismatch),
{
    cache.rebuildable && cache.fallback_on_mismatch
}

/// The entry records this path and this many bytes, and its digest has the right shape.
pub open spec fn entry_shape_matches(
    entry: metadata::EntryModel,
    path: Seq<char>,
    len: nat,
    style: PathStyle,
) -> bool {
    &&& entry.bytes == len
    &&& digest::is_blake3_hex_text(entry.blake3)
    &&& path_text::paths_match(entry.path, path, style)
}

pub open spec fn entry_digest_matches(entry: metadata::EntryModel, bytes: Seq<u8>) -> bool {
    entry.blake3 == digest::hex_text(digest::blake3_digest(bytes))
}

pub open spec fn entry_is_fresh(
    entry: metadata::EntryModel,
    path: Seq<char>,
    bytes: Seq<u8>,
    style: PathStyle,
) -> bool {
    &&& entry.bytes <= DX_MACHINE_MAX_BYTES
    &&& entry_shape_matches(entry, path, bytes.len(), style)
    &&& entry_digest_matches(entry, bytes)
}

/// The document has the known schema and policy, and its artifact is worth keeping.
pub open spec fn document_is_usable(document: metadata::DocumentModel) -> bool {
    &&& document.schema == DX_MACHINE_METADATA_SCHEMA@
    &&& policy_holds(document.cache)
    &&& size_benefits(document.source.bytes, document.machine.bytes)
}

pub fn validate_metadata_entry_with_hash(
    entry: &MachineMetadataEntry,
    path: &str,
    bytes: &[u8],
    style: PathStyle,
) -> (r: Option<[u8; 32]>)
    ensures
        r is Some == entry_is_fresh(entry@, path@, bytes@, style),
        r matches Some(hash) ==> hash@ == digest::blake3_digest(bytes@),
{
    if entry.bytes > DX_MACHINE_MAX_BYTES || entry.bytes != bytes.len() as u64 || !is_blake3_hex(
        entry.blake3.as_str(),
    ) {
        return None;
    }
    if !metadata_path_matches(entry.path.as_str(), path, style) {
        return None;
    }
    let expected: [u8; 32] = blake3_hash(bytes);
    if blake3_hex_matches_hash(entry.blake3.as_str(), &expected) {
        Some(expected)
    } else {
        None
    }
}

pub fn validate_metadata_entry(
    entry: &MachineMetadataEntry,
    path: &str,
    bytes: &[u8],
    style: PathStyle,
) -> (r: bool)
    ensures
        r == entry_is_fresh(entry@, path@, bytes@, style),
{
    validate_metadata_entry_with_hash(entry, path, bytes, style).is_some()
}

pub fn validate_metadata_entry_before_hash(
    entry: &MachineMetadataEntry,
    path: &str,
    bytes: &[u8],
    style: PathStyle,
) -> (r: bool)
    ensures
        r == entry_shape_matches(entry@, path@, bytes@.len(), style),
{
    if entry.bytes != bytes.len() as u64 || !is_blake3_hex(entry.blake3.as_str()) {
        return false;
    }
    metadata_path_matches(entry.path.as_str(), path, style)
}

pub fn validate_metadata_entry_hash_after_precheck(
    entry: &MachineMetadataEntry,
    bytes: &[u8],
) -> (r: Option<[u8; 32]>)
    ensures
        r is Some == entry_digest_matches(entry@, bytes@),
        r matches Some(hash) ==> hash@ == digest::blake3_digest(bytes@),
{
    let expected: [u8; 32] = blake3_hash(bytes);
    if blake3_hex_matches_hash(entry.blake3.as_str(), &expected) {
        Some(expected)
    } else {
        None
    }
}

/// The machine entry before its file is opened.
pub open spec fn machine_shape_holds(
    entry: metadata::EntryModel,
    path: Seq<char>,
    style: PathStyle,
) -> bool {
    &&& 0 < entry.bytes <= DX_MACHINE_MAX_BYTES
    &&& digest::is_blake3_hex_text(entry.blake3)
    &&& path_text::paths_match(entry.path, path, style)
}

pub fn validate_metadata_path_and_hash_shape(
    entry: &MachineMetadataEntry,
    path: &str,
    style: PathStyle,
) -> (r: DxMachineCacheStatus<()>)
    ensures
        r == if machine_shape_holds(entry@, path@, style) {
            DxMachineCacheStatus::Hit(())
        } else {
            DxMachineCacheStatus::Invalid
        },
{
    if entry.bytes == 0 || entry.bytes > DX_MACHINE_MAX_BYTES {
        return DxMachineCacheStatus::Invalid;
    }
    if !is_blake3_hex(entry.blake3.as_str()) {
        return DxMachineCacheStatus::Invalid;
    }
    if !metadata_path_matches(entry.path.as_str(), path, style) {
        return DxMachineCacheStatus::Invalid;
    }
    DxMachineCacheStatus::Hit(())
}

pub fn document_has_known_schema_and_policy(document: &MachineMetadataDocument) -> (r: bool)
    ensures
        r == document_is_usable(document@),
{
    same_text(document.schema.as_str(), DX_MACHINE_METADATA_SCHEMA) && validate_cache_policy(
        &document.cache,
    ) && machine_artifact_benefits_source_size(document.source.bytes, document.machine.bytes)
}

pub fn validate_machine_metadata_source_and_policy_before_hash(
    document: &MachineMetadataDocument,
    source_path: &str,
    source_bytes: &[u8],
    style: PathStyle,
) -> (r: bool)
    ensures
        r == (document_is_usable(document@) && entry_shape_matches(
            document@.source,
            source_path@,
            source_bytes@.len(),
            style,
        )),
{
    if !document_has_known_schema_and_policy(document) {
        return false;
    }
    validate_metadata_entry_before_hash(&document.source, source_path, source_bytes, style)
}

pub fn validate_machine_metadata_source_and_policy_with_hash(
    document: &MachineMetadataDocument,
    source_path: &str,
    source_bytes: &[u8],
    style: PathStyle,
) -> (r: Option<[u8; 32]>)
    ensures
        r is Some == (document_is_usable(document@) && entry_is_fresh(
            document@.source,
            source_path@,
            source_bytes@,
            style,
        )),
        r matches Some(hash) ==> hash@ == digest::blake3_digest(source_bytes@),
{
    if !document_has_known_schema_and_policy(document) {
        return None;
    }
    validate_metadata_entry_with_hash(&document.source, source_path, source_bytes, style)
}

pub open spec fn parsed_model(parsed: Option<MachineMetadataDocument>) -> Option<
    metadata::DocumentModel,
> {
    match parsed {
        Some(document) => Some(document@),
        None => None,
    }
}

/// The canonical reading of the metadata, or else the reading of a general JSON parser.
pub open spec fn effective_document(
    bytes: Seq<u8>,
    parsed: Option<metadata::DocumentModel>,
) -> Option<metadata::DocumentModel> {
    match metadata::canonical_document_of_bytes(bytes) {
        Some(document) => Some(document),
        None => parsed,
    }
}

/// `parsed` is what a general JSON parser makes of the same bytes; it is looked at only where
/// they are not canonical.
pub fn parse_machine_metadata_document(
    metadata_json: &[u8],
    parsed: Option<MachineMetadataDocument>,
) -> (r: Option<MachineMetadataDocument>)
    ensures
        parsed_model(r) == effective_document(metadata_json@, parsed_model(parsed)),
{
    match parse_canonical_machine_metadata_document(metadata_json) {
        Some(document) => Some(document),
        None => parsed,
    }
}

/// Whether a metadata file vouches for this machine artifact of this source.
pub open spec fn metadata_vouches(
    document: Option<metadata::DocumentModel>,
    source_path: Seq<char>,
    source_bytes: Seq<u8>,
    machine_path: Seq<char>,
    machine_bytes: Seq<u8>,
    style: PathStyle,
) -> bool {
    document matches Some(d) && document_is_usable(d) && entry_is_fresh(
        d.source,
        source_path,
        source_bytes,
        style,
    ) && entry_is_fresh(d.machine, machine_path, machine_bytes, style)
}

pub fn validate_machine_metadata(
    metadata_json: &str,
    parsed: Option<MachineMetadataDocument>,
    source_path: &str,
    source_bytes: &[u8],
    machine_path: &str,
    machine_bytes: &[u8],
    style: PathStyle,
) -> (r: DxMachineCacheStatus<()>)
    ensures
        r == if metadata_vouches(
            effective_document(encode_utf8(metadata_json@), parsed_model(parsed)),
            source_path@,
            source_bytes@,
            machine_path@,
            machine_bytes@,
            style,
        ) {
            DxMachineCacheStatus::Hit(())
        } else {
            DxMachineCacheStatus::Invalid
        },
{
    let document: MachineMetadataDocument = match parse_machine_metadata_document(
        metadata_json.as_bytes(),
        parsed,
    ) {
        Some(document) => document,
        None => {
            return DxMachineCacheStatus::Invalid;
        },
    };
    if validate_machine_metadata_source_and_policy_with_hash(
        &document,
        source_path,
        source_bytes,
        style,
    ).is_none() {
        return DxMachineCacheStatus::Invalid;
    }
    if !validate_metadata_entry(&document.machine, machine_path, machine_bytes, style) {
        return DxMachineCacheStatus::Invalid;
    }
    DxMachineCacheStatus::Hit(())
}

// ---------------------------------------------------------------------------------------------
// Reading

/// What is still to be read once the metadata has been accepted.
#[derive(Debug)]
pub struct MachineReadPlan {
    pub machine: MachineMetadataEntry,
    pub source_hash: [u8; 32],
}

pub ghost struct PlanModel {
    pub machine: metadata::EntryModel,
    pub source_hash: Seq<u8>,
}

impl View for MachineReadPlan {
    type V = PlanModel;

    open spec fn view(&self) -> PlanModel {
        PlanModel { machine: self.machine@, source_hash: self.source_hash@ }
    }
}

pub open spec fn plan_status_model(status: DxMachineCacheStatus<MachineReadPlan>) -> DxMachineCacheStatus<
    PlanModel,
> {
    match status {
        DxMachineCacheStatus::Hit(plan) => DxMachineCacheStatus::Hit(plan@),
        DxMachineCacheStatus::Miss => DxMachineCacheStatus::Miss,
        DxMachineCacheStatus::Disabled => DxMachineCacheStatus::Disabled,
        DxMachineCacheStatus::Invalid => DxMachineCacheStatus::Invalid,
    }
}

/// What the metadata file alone decides: nothing was cached, it does not hold for this source, or
/// the machine file is to be read.
pub open spec fn planned_read(
    enabled: bool,
    machine_path: Seq<char>,
    source_path: Seq<char>,
    source_bytes: Seq<u8>,
    metadata_file: FileModel,
    parsed: Option<metadata::DocumentModel>,
    style: PathStyle,
) -> DxMachineCacheStatus<PlanModel> {
    if !enabled {
        DxMachineCacheStatus::Disabled
    } else {
        match metadata_file {
            FileModel::NotFound => DxMachineCacheStatus::Miss,
            FileModel::OpenFailed => DxMachineCacheStatus::Invalid,
            FileModel::ReadFailed => DxMachineCacheStatus::Invalid,
            FileModel::Bytes(bytes) => if bytes.len() > DX_MACHINE_METADATA_MAX_BYTES {
                DxMachineCacheStatus::Invalid
            } else {
                match effective_document(bytes, parsed) {
                    None => DxMachineCacheStatus::Invalid,
                    Some(document) => if document_is_usable(document) && entry_shape_matches(
                        document.source,
                        source_path,
                        source_bytes.len(),
                        style,
                    ) && machine_shape_holds(document.machine, machine_path, style)
                        && entry_digest_matches(document.source, source_bytes) {
                        DxMachineCacheStatus::Hit(
                            PlanModel {
                                machine: document.machine,
                                source_hash: digest::blake3_digest(source_bytes),
                            },
                        )
                    } else {
                        DxMachineCacheStatus::Invalid
                    },
                }
            },
        }
    }
}

/// What the machine file decides.
pub open spec fn finished_read(plan: PlanModel, machine_file: FileModel) -> DxMachineCacheStatus<
    HitModel,
> {
    match machine_file {
        FileModel::NotFound => DxMachineCacheStatus::Miss,
        FileModel::OpenFailed => DxMachineCacheStatus::Invalid,
        FileModel::ReadFailed => DxMachineCacheStatus::Miss,
        FileModel::Bytes(bytes) => if bytes.len() == plan.machine.bytes && entry_digest_matches(
            plan.machine,
            bytes,
        ) {
            DxMachineCacheStatus::Hit(
                HitModel { machine_bytes: bytes, source_hash: plan.source_hash },
            )
        } else {
            DxMachineCacheStatus::Invalid
        },
    }
}

/// A whole look-up: the machine file counts only where the metadata file is accepted.
pub open spec fn validated_read(
    enabled: bool,
    machine_path: Seq<char>,
    source_path: Seq<char>,
    source_bytes: Seq<u8>,
    metadata_file: FileModel,
    parsed: Option<metadata::DocumentModel>,
    machine_file: FileModel,
    style: PathStyle,
) -> DxMachineCacheStatus<HitModel> {
    match planned_read(
        enabled,
        machine_path,
        source_path,
        source_bytes,
        metadata_file,
        parsed,
        style,
    ) {
        DxMachineCacheStatus::Hit(plan) => finished_read(plan, machine_file),
        DxMachineCacheStatus::Miss => DxMachineCacheStatus::Miss,
        DxMachineCacheStatus::Disabled => DxMachineCacheStatus::Disabled,
        DxMachineCacheStatus::Invalid => DxMachineCacheStatus::Invalid,
    }
}

/// What a look-up finds on disk, with the general parser's reading of the metadata bytes.
#[derive(Debug)]
pub struct MachineCacheFiles {
    pub metadata: FileRead,
    pub parsed: Option<MachineMetadataDocument>,
    pub machine: FileRead,
}

impl DxMachineCacheConfig {
    /// The first half of a look-up. `Hit` asks for the machine file; every other status is final.
    pub fn begin_validated_read(
        &self,
        paths: &DxMachineCachePaths,
        source_path: &str,
        source_bytes: &[u8],
        metadata_file: FileRead,
        parsed: Option<MachineMetadataDocument>,
    ) -> (r: DxMachineCacheStatus<MachineReadPlan>)
        ensures
            plan_status_model(r) == planned_read(
                self.enabled,
                paths.machine@,
                source_path@,
                source_bytes@,
                metadata_file@,
                parsed_model(parsed),
                self.style,
            ),
    {
        if !self.enabled {
            return DxMachineCacheStatus::Disabled;
        }
        let metadata_bytes: Vec<u8> = match metadata_file {
            FileRead::NotFound => {
                return DxMachineCacheStatus::Miss;
            },
            FileRead::OpenFailed => {
                return DxMachineCacheStatus::Invalid;
            },
            FileRead::ReadFailed => {
                return DxMachineCacheStatus::Invalid;
            },
            FileRead::Bytes(bytes) => bytes,
        };
        if metadata_bytes.len() as u64 > DX_MACHINE_METADATA_MAX_BYTES {
            return DxMachineCacheStatus::Invalid;
        }
        let document: MachineMetadataDocument = match parse_machine_metadata_document(
            metadata_bytes.as_slice(),
            parsed,
        ) {
            Some(document) => document,
            None => {
                return DxMachineCacheStatus::Invalid;
            },
        };
        if !validate_machine_metadata_source_and_policy_before_hash(
            &document,
            source_path,
            source_bytes,
            self.style,
        ) {
            return DxMachineCacheStatus::Invalid;
        }
        match validate_metadata_path_and_hash_shape(
            &document.machine,
            paths.machine.as_str(),
            self.style,
        ) {
            DxMachineCacheStatus::Hit(()) => {},
            _ => {
                return DxMachineCacheStatus::Invalid;
            },
        }
        match validate_metadata_entry_hash_after_precheck(&document.source, source_bytes) {
            Some(source_hash) => DxMachineCacheStatus::Hit(
                MachineReadPlan { machine: document.machine, source_hash },
            ),
            None => DxMachineCacheStatus::Invalid,
        }
    }

    pub fn read_validated_machine_with_source_hash(
        &self,
        paths: &DxMachineCachePaths,
        source_path: &str,
        source_bytes: &[u8],
        files: MachineCacheFiles,
    ) -> (r: DxMachineCacheStatus<DxMachineCacheHit>)
        ensures
            status_model(r) == validated_read(
                self.enabled,
                paths.machine@,
                source_path@,
                source_bytes@,
                files.metadata@,
                parsed_model(files.parsed),
                files.machine@,
                self.style,
            ),
            r is Hit == may_be_used(
                self.enabled,
                paths.machine@,
                source_path@,
                source_bytes@,
                files.metadata@,
                parsed_model(files.parsed),
                files.machine@,
                self.style,
            ),
            r matches DxMachineCacheStatus::Hit(hit) ==> files.machine@ == FileModel::Bytes(
                hit.machine_bytes@,
            ) && hit.source_hash@ == digest::blake3_digest(source_bytes@),
            r is Disabled == !self.enabled,
    {
        proof {
            lemma_hit_means_usable(
                self.enabled,
                paths.machine@,
                source_path@,
                source_bytes@,
                files.metadata@,
                parsed_model(files.parsed),
                files.machine@,
                self.style,
            );
        }
        match self.begin_validated_read(
            paths,
            source_path,
            source_bytes,
            files.metadata,
            files.parsed,
        ) {
            DxMachineCacheStatus::Hit(plan) => finish_validated_read(plan, files.machine),
            DxMachineCacheStatus::Miss => DxMachineCacheStatus::Miss,
            DxMachineCacheStatus::Disabled => DxMachineCacheStatus::Disabled,
            DxMachineCacheStatus::Invalid => DxMachineCacheStatus::Invalid,
        }
    }

    pub fn read_validated_machine(
        &self,
        paths: &DxMachineCachePaths,
        source_path: &str,
        source_bytes: &[u8],
        files: MachineCacheFiles,
    ) -> (r: DxMachineCacheStatus<Vec<u8>>)
        ensures
            ({
                let expected = validated_read(
                    self.enabled,
                    paths.machine@,
                    source_path@,
                    source_bytes@,
                    files.metadata@,
                    parsed_model(files.parsed),
                    files.machine@,
                    self.style,
                );
                match r {
                    DxMachineCacheStatus::Hit(bytes) => expected matches DxMachineCacheStatus::Hit(
                        hit,
                    ) && bytes@ == hit.machine_bytes,
                    DxMachineCacheStatus::Miss => expected is Miss,
                    DxMachineCacheStatus::Disabled => expected is Disabled,
                    DxMachineCacheStatus::Invalid => expected is Invalid,
                }
            }),
    {
        match self.read_validated_machine_with_source_hash(
            paths,
            source_path,
            source_bytes,
            files,
        ) {
            DxMachineCacheStatus::Hit(hit) => DxMachineCacheStatus::Hit(hit.machine_bytes),
            DxMachineCacheStatus::Miss => DxMachineCacheStatus::Miss,
            DxMachineCacheStatus::Disabled => DxMachineCacheStatus::Disabled,
            DxMachineCacheStatus::Invalid => DxMachineCacheStatus::Invalid,
        }
    }
}

/// The second half of a look-up.
pub fn finish_validated_read(plan: MachineReadPlan, machine_file: FileRead) -> (r:
    DxMachineCacheStatus<DxMachineCacheHit>)
    ensures
        status_model(r) == finished_read(plan@, machine_file@),
{
    let machine_bytes: Vec<u8> = match machine_file {
        FileRead::NotFound => {
            return DxMachineCacheStatus::Miss;
        },
        FileRead::OpenFailed => {
            return DxMachineCacheStatus::Invalid;
        },
        FileRead::ReadFailed => {
            return DxMachineCacheStatus::Miss;
        },
        FileRead::Bytes(bytes) => bytes,
    };
    if machine_bytes.len() as u64 != plan.machine.bytes {
        return DxMachineCacheStatus::Invalid;
    }
    if validate_metadata_entry_hash_after_precheck(
        &plan.machine,
        machine_bytes.as_slice(),
    ).is_none() {
        return DxMachineCacheStatus::Invalid;
    }
    DxMachineCacheStatus::Hit(DxMachineCacheHit { machine_bytes, source_hash: plan.source_hash })
}

// ---------------------------------------------------------------------------------------------
// What a value and a hit mean

/// Whether `core` is a text without the white space at its ends.
pub open spec fn is_core(value: Seq<char>, core: Seq<char>) -> bool {
    &&& exists|start: int, end: int|
        0 <= start <= end <= value.len() && core == #[trigger] value.subrange(start, end) && (forall|
            i: int,
        |
            0 <= i < start ==> is_white_space(#[trigger] value[i])) && forall|i: int|
            end <= i < value.len() ==> is_white_space(#[trigger] value[i])
    &&& core.len() > 0 ==> !is_white_space(core[0]) && !is_white_space(core.last())
}

proof fn lemma_trimmed_range(value: Seq<char>) -> (range: (int, int))
    ensures
        0 <= range.0 <= range.1 <= value.len(),
        trimmed(value) == value.subrange(range.0, range.1),
        forall|i: int| 0 <= i < range.0 ==> is_white_space(#[trigger] value[i]),
        forall|i: int| range.1 <= i < value.len() ==> is_white_space(#[trigger] value[i]),
        trimmed(value).len() > 0 ==> !is_white_space(trimmed(value)[0]) && !is_white_space(
            trimmed(value).last(),
        ),
    decreases value.len(),
{
    if value.len() == 0 {
        assert(value.subrange(0, 0) =~= value);
        (0, 0)
    } else if is_white_space(value[0]) {
        let inner = value.drop_first();
        let (start, end) = lemma_trimmed_range(inner);
        assert(value.subrange(start + 1, end + 1) =~= inner.subrange(start, end));
        assert forall|i: int| 0 <= i < start + 1 implies is_white_space(#[trigger] value[i]) by {
            if i > 0 {
                assert(is_white_space(inner[i - 1]));
            }
        }
        assert forall|i: int| end + 1 <= i < value.len() implies is_white_space(
            #[trigger] value[i],
        ) by {
            assert(is_white_space(inner[i - 1]));
        }
        (start + 1, end + 1)
    } else if is_white_space(value.last()) {
        let inner = value.drop_last();
        let (start, end) = lemma_trimmed_range(inner);
        assert(value.subrange(start, end) =~= inner.subrange(start, end));
        assert forall|i: int| 0 <= i < start implies is_white_space(#[trigger] value[i]) by {
            assert(is_white_space(inner[i]));
        }
        assert forall|i: int| end <= i < value.len() implies is_white_space(#[trigger] value[i]) by {
            if i < inner.len() {
                assert(is_white_space(inner[i]));
            }
        }
        (start, end)
    } else {
        assert(value.subrange(0, value.len() as int) =~= value);
        (0, value.len() as int)
    }
}

/// Trimming takes white space from both ends and nothing else.
pub proof fn lemma_trimmed(value: Seq<char>)
    ensures
        is_core(value, trimmed(value)),
{
    let (start, end) = lemma_trimmed_range(value);
    assert(trimmed(value) == value.subrange(start, end));
}

/// Whether an artifact may be used for a source: the cache is on, both files were read, and the
/// metadata names this source and this artifact by path, length and digest, under a policy that
/// allows it.
pub open spec fn may_be_used(
    enabled: bool,
    machine_path: Seq<char>,
    source_path: Seq<char>,
    source_bytes: Seq<u8>,
    metadata_file: FileModel,
    parsed: Option<metadata::DocumentModel>,
    machine_file: FileModel,
    style: PathStyle,
) -> bool {
    &&& enabled
    &&& metadata_file matches FileModel::Bytes(metadata)
    &&& machine_file matches FileModel::Bytes(machine)
    &&& metadata.len() <= DX_MACHINE_METADATA_MAX_BYTES
    &&& (match metadata::canonical_document_of_bytes(metadata) {
        Some(document) => Some(document),
        None => parsed,
    }) matches Some(document)
    &&& document.schema == DX_MACHINE_METADATA_SCHEMA@
    &&& document.cache.rebuildable
    &&& document.cache.fallback_on_mismatch
    &&& document.source.bytes == source_bytes.len()
    &&& document.source.blake3 == digest::hex_text(digest::blake3_digest(source_bytes))
    &&& path_text::paths_match(document.source.path, source_path, style)
    &&& document.machine.bytes == machine.len()
    &&& document.machine.blake3 == digest::hex_text(digest::blake3_digest(machine))
    &&& path_text::paths_match(document.machine.path, machine_path, style)
    &&& 0 < machine.len() < source_bytes.len()
    &&& machine.len() <= DX_MACHINE_MAX_BYTES
}

/// A read hits exactly where the artifact may be used, and it gives the artifact and the digest of
/// the source. A cache that is off says so.
pub proof fn lemma_hit_means_usable(
    enabled: bool,
    machine_path: Seq<char>,
    source_path: Seq<char>,
    source_bytes: Seq<u8>,
    metadata_file: FileModel,
    parsed: Option<metadata::DocumentModel>,
    machine_file: FileModel,
    style: PathStyle,
)
    ensures
        ({
            let status = validated_read(
                enabled,
                machine_path,
                source_path,
                source_bytes,
                metadata_file,
                parsed,
                machine_file,
                style,
            );
            &&& status is Hit == may_be_used(
                enabled,
                machine_path,
                source_path,
                source_bytes,
                metadata_file,
                parsed,
                machine_file,
                style,
            )
            &&& status matches DxMachineCacheStatus::Hit(hit) ==> machine_file == FileModel::Bytes(
                hit.machine_bytes,
            ) && hit.source_hash == digest::blake3_digest(source_bytes)
            &&& status is Disabled == !enabled
            &&& enabled && metadata_file is NotFound ==> status is Miss
        }),
{
    assert(digest::blake3_digest(source_bytes).len() == 32);
    digest::lemma_hex_text_shape(digest::blake3_digest(source_bytes));
    if let FileModel::Bytes(machine) = machine_file {
        assert(digest::blake3_digest(machine).len() == 32);
        digest::lemma_hex_text_shape(digest::blake3_digest(machine));
    }
}

/// What a read says where it does not hit. A metadata file that is missing is a miss, one that cannot
/// be read is invalid. Where both files were read and the artifact may not be used, the cache is
/// invalid; a read misses only for want of a file. With metadata under which another artifact might
/// be used, an artifact that is missing or cannot be read is a miss, one that cannot be opened is not.
pub proof fn lemma_reads_without_hit(
    machine_path: Seq<char>,
    source_path: Seq<char>,
    source_bytes: Seq<u8>,
    metadata_file: FileModel,
    parsed: Option<metadata::DocumentModel>,
    machine_file: FileModel,
    wanted: Seq<u8>,
    style: PathStyle,
)
    ensures
        ({
            let status = validated_read(
                true,
                machine_path,
                source_path,
                source_bytes,
                metadata_file,
                parsed,
                machine_file,
                style,
            );
            let might_hit = may_be_used(
                true,
                machine_path,
                source_path,
                source_bytes,
                metadata_file,
                parsed,
                FileModel::Bytes(wanted),
                style,
            );
            &&& metadata_file is NotFound ==> status is Miss
            &&& metadata_file is OpenFailed || metadata_file is ReadFailed ==> status is Invalid
            &&& metadata_file is Bytes && machine_file is Bytes ==> status is Hit || status
                is Invalid
            &&& status is Miss ==> metadata_file is NotFound || machine_file is NotFound
                || machine_file is ReadFailed
            &&& might_hit && (machine_file is NotFound || machine_file is ReadFailed) ==> status
                is Miss
            &&& might_hit && machine_file is OpenFailed ==> status is Invalid
        }),
{
    assert(digest::blake3_digest(source_bytes).len() == 32);
    digest::lemma_hex_text_shape(digest::blake3_digest(source_bytes));
    assert(digest::blake3_digest(wanted).len() == 32);
    digest::lemma_hex_text_shape(digest::blake3_digest(wanted));
}

/// Metadata vouches for an artifact exactly where a read would take it, and the source is no larger
/// than an artifact may be.
pub proof fn lemma_metadata_vouches(
    metadata: Seq<u8>,
    parsed: Option<metadata::DocumentModel>,
    source_path: Seq<char>,
    source_bytes: Seq<u8>,
    machine_path: Seq<char>,
    machine_bytes: Seq<u8>,
    style: PathStyle,
)
    requires
        metadata.len() <= DX_MACHINE_METADATA_MAX_BYTES,
    ensures
        metadata_vouches(
            effective_document(metadata, parsed),
            source_path,
            source_bytes,
            machine_path,
            machine_bytes,
            style,
        ) == (source_bytes.len() <= DX_MACHINE_MAX_BYTES && may_be_used(
            true,
            machine_path,
            source_path,
            source_bytes,
            FileModel::Bytes(metadata),
            parsed,
            FileModel::Bytes(machine_bytes),
            style,
        )),
{
    assert(digest::blake3_digest(source_bytes).len() == 32);
    digest::lemma_hex_text_shape(digest::blake3_digest(source_bytes));
    assert(digest::blake3_digest(machine_bytes).len() == 32);
    digest::lemma_hex_text_shape(digest::blake3_digest(machine_bytes));
}

} // verus!
