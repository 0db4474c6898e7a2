//! What was read from `package.json` files: kept in the process, and in the machine cache.
//!
//! The caller keeps the loaded values; a handle stands for one of them.

use vstd::prelude::*;
use crate::codec;
use crate::digest;
use crate::directory;
use crate::directory::split_absolute_path;
use crate::machine_cache;
use crate::machine_cache::{DxMachineCacheConfig, DxMachineCachePaths, DxMachineCacheStatus,
    MachineCacheFiles};
use crate::machine_write;
use crate::machine_write::MachineArtifactWrite;
use crate::name_set::contains_name;
use crate::package_json;
use crate::package_json::{decode_package_json_optional_peer_dependencies_machine_payload,
    encode_package_json_optional_peer_dependencies_machine_payload,
    PackageJsonOptionalPeerDependencies};
use crate::path_text;
use crate::path_text::{join_path, machine_source_path, named_path_parts, native_path_components,
    path_root_text, PathStyle};
use crate::shared_map;
use crate::shared_map::{clear_handles, handle_of, insert_handle, new_handles};
use crate::text;
use crate::text::{join_parts, same_text};

verus! {

pub const PACKAGE_JSON_MACHINE_MIN_SOURCE_BYTES: usize = 16384;

pub const OPTIONAL_PEER_CACHE_NAMESPACE: &'static str = "package_json_optional_peer_deps";

// ---------------------------------------------------------------------------------------------
// Keys

/// One text for all spellings of a path, with or without a `.` in front.
pub open spec fn cache_key(path: Seq<char>, style: PathStyle) -> Seq<char> {
    path_text::root_text(path, style) + text::joined(path_text::named_parts(path, style), '/')
}

pub fn package_json_cache_key(path: &str, style: PathStyle) -> (key: String)
    ensures
        key@ == cache_key(path@, style),
{
    let mut key: String = path_root_text(path, style);
    let names: String = join_parts(&named_path_parts(path, style), '/');
    key.push_str(names.as_str());
    key
}

/// The key under which a relative path is found by its absolute spelling.
pub open spec fn absolute_alias(
    project_root: Seq<char>,
    realpath: Seq<char>,
    style: PathStyle,
) -> Option<Seq<char>> {
    if directory::absolute_path(realpath, style) is Some || path_text::native_components(
        realpath,
        style,
    ).contains(".."@) {
        None
    } else {
        Some(cache_key(path_text::joined_path(project_root, realpath, style), style))
    }
}

pub fn package_json_project_absolute_alias_key(
    project_root: &str,
    realpath: &str,
    style: PathStyle,
) -> (r: Option<String>)
    ensures
        codec::opt_text(r) == absolute_alias(project_root@, realpath@, style),
        r is None == (path_text::is_absolute(realpath@, style) || path_text::native_components(
            realpath@,
            style,
        ).contains(".."@)),
        r matches Some(key) ==> key@ == cache_key(
            path_text::joined_path(project_root@, realpath@, style),
            style,
        ),
{
    proof {
        directory::lemma_absolute_path(realpath@, style);
    }
    if split_absolute_path(realpath, style).is_some() {
        return None;
    }
    if contains_name(&native_path_components(realpath, style), "..") {
        return None;
    }
    Some(package_json_cache_key(join_path(project_root, realpath, style).as_str(), style))
}

/// The keys under which the optional peer dependencies of a package are kept.
#[derive(Debug, Clone, PartialEq, Eq)]
pub struct PeerKeys {
    pub project: String,
    /// The path as given.
    pub direct: String,
    /// The path below the project root.
    pub source: String,
    /// The absolute spelling of a relative path.
    pub alias: Option<String>,
}

#[verifier::ext_equal]
pub ghost struct KeysModel {
    pub project: Seq<char>,
    pub direct: Seq<char>,
    pub source: Seq<char>,
    pub alias: Option<Seq<char>>,
}

impl View for PeerKeys {
    type V = KeysModel;

    open spec fn view(&self) -> KeysModel {
        KeysModel {
            project: self.project@,
            direct: self.direct@,
            source: self.source@,
            alias: codec::opt_text(self.alias),
        }
    }
}

pub open spec fn peer_keys(
    project_root: Seq<char>,
    realpath: Seq<char>,
    style: PathStyle,
) -> KeysModel {
    KeysModel {
        project: cache_key(project_root, style),
        direct: cache_key(realpath, style),
        source: cache_key(path_text::path_below(project_root, realpath, style), style),
        alias: absolute_alias(project_root, realpath, style),
    }
}

pub fn package_json_peer_keys(project_root: &str, realpath: &str, style: PathStyle) -> (keys: PeerKeys)
    ensures
        keys@ == peer_keys(project_root@, realpath@, style),
        keys.project@ == cache_key(project_root@, style),
        keys.direct@ == cache_key(realpath@, style),
        keys.source@ == cache_key(
            path_text::path_below(project_root@, realpath@, style),
            style,
        ),
{
    let below: String = machine_source_path(project_root, realpath, style);
    PeerKeys {
        project: package_json_cache_key(project_root, style),
        direct: package_json_cache_key(realpath, style),
        source: package_json_cache_key(below.as_str(), style),
        alias: package_json_project_absolute_alias_key(project_root, realpath, style),
    }
}

// ---------------------------------------------------------------------------------------------
// The cache of the process

/// A project's map with a handle under every key but that of the source.
pub open spec fn with_aliases(
    map: Map<Seq<char>, usize>,
    keys: KeysModel,
    handle: usize,
) -> Map<Seq<char>, usize> {
    let direct = if keys.direct != keys.source {
        map.insert(keys.direct, handle)
    } else {
        map
    };
    match keys.alias {
        Some(alias) => if alias != keys.source && alias != keys.direct {
            direct.insert(alias, handle)
        } else {
            direct
        },
        None => direct,
    }
}

fn insert_optional_peer_dep_cache_aliases(
    map: &mut dashmap::DashMap<String, usize, rustc_hash::FxBuildHasher>,
    keys: &PeerKeys,
    handle: usize,
)
    ensures
        shared_map::handle_entries(*final(map)) == with_aliases(
            shared_map::handle_entries(*old(map)),
            keys@,
            handle,
        ),
{
    if !same_text(keys.direct.as_str(), keys.source.as_str()) {
        insert_handle(map, keys.direct.as_str(), handle);
    }
    match &keys.alias {
        Some(alias) => {
            if !same_text(alias.as_str(), keys.source.as_str()) && !same_text(
                alias.as_str(),
                keys.direct.as_str(),
            ) {
                insert_handle(map, alias.as_str(), handle);
            }
        },
        None => {},
    }
}

/// Handles by path, and for each project handles by path.
pub struct PackageJsonCache {
    side_effects: dashmap::DashMap<String, usize, rustc_hash::FxBuildHasher>,
    projects: dashmap::DashMap<String, usize, rustc_hash::FxBuildHasher>,
    peers: Vec<dashmap::DashMap<String, usize, rustc_hash::FxBuildHasher>>,
}

impl PackageJsonCache {
    /// The handles for side effects.
    pub closed spec fn side_effects(self) -> Map<Seq<char>, usize> {
        shared_map::handle_entries(self.side_effects)
    }

    /// The handles for optional peer dependencies, project by project.
    pub closed spec fn peers(self) -> Map<Seq<char>, Map<Seq<char>, usize>> {
        let slots = shared_map::handle_entries(self.projects);
        Map::new(
            |project: Seq<char>| slots.contains_key(project),
            |project: Seq<char>| shared_map::handle_entries(self.peers@[slots[project] as int]),
        )
    }

    /// Every project has a map of its own.
    pub closed spec fn well_formed(self) -> bool {
        let slots = shared_map::handle_entries(self.projects);
        &&& forall|project: Seq<char>| #[trigger]
            slots.contains_key(project) ==> slots[project] < self.peers@.len()
        &&& forall|one: Seq<char>, other: Seq<char>|
            slots.contains_key(one) && slots.contains_key(other) && #[trigger] slots[one]
                == #[trigger] slots[other] ==> one == other
    }

    pub fn new() -> (cache: Self)
        ensures
            cache.well_formed(),
            cache.side_effects() == Map::<Seq<char>, usize>::empty(),
            cache.peers() == Map::<Seq<char>, Map<Seq<char>, usize>>::empty(),
    {
        let cache: PackageJsonCache = PackageJsonCache {
            side_effects: new_handles(),
            projects: new_handles(),
            peers: Vec::new(),
        };
        assert(cache.peers() =~= Map::empty());
        cache
    }

    pub fn clear(&mut self)
        ensures
            final(self).well_formed(),
            final(self).side_effects() == Map::<Seq<char>, usize>::empty(),
            final(self).peers() == Map::<Seq<char>, Map<Seq<char>, usize>>::empty(),
    {
        clear_handles(&mut self.side_effects);
        clear_handles(&mut self.projects);
        self.peers = Vec::new();
        assert(self.peers() =~= Map::empty());
    }

    /// The handle of the package at a path. A path that has none gets `next`, and the caller loads
    /// the package.
    pub fn cached_package_json_side_effects(
        &mut self,
        realpath: &str,
        next: usize,
        style: PathStyle,
    ) -> (r: (usize, bool))
        requires
            old(self).well_formed(),
        ensures
            final(self).well_formed(),
            final(self).peers() == old(self).peers(),
            ({
                let key = cache_key(realpath@, style);
                if old(self).side_effects().contains_key(key) {
                    &&& r == (old(self).side_effects()[key], false)
                    &&& final(self).side_effects() == old(self).side_effects()
                } else {
                    &&& r == (next, true)
                    &&& final(self).side_effects() == old(self).side_effects().insert(key, next)
                }
            }),
    {
        let key: String = package_json_cache_key(realpath, style);
        if let Some(handle) = handle_of(&self.side_effects, key.as_str()) {
            return (handle, false);
        }
        insert_handle(&mut self.side_effects, key.as_str(), next);
        (next, true)
    }

    /// The handle of the optional peer dependencies of a package, where they were loaded. A handle
    /// that is found by the path below the project root is found by the other keys from then on.
    pub fn cached_package_json_optional_peer_dep(&mut self, keys: &PeerKeys) -> (r: Option<usize>)
        requires
            old(self).well_formed(),
        ensures
            final(self).well_formed(),
            final(self).side_effects() == old(self).side_effects(),
            r == peer_handle(old(self).peers(), keys@),
            final(self).peers() == peers_after_lookup(old(self).peers(), keys@),
            peer_handle(final(self).peers(), keys@) == r,
            ({
                let known = project_map(old(self).peers(), keys.project@);
                &&& r is Some == (known.contains_key(keys.direct@) || known.contains_key(
                    keys.source@,
                ))
                &&& known.contains_key(keys.direct@) ==> r == Some(known[keys.direct@])
                &&& !known.contains_key(keys.direct@) && known.contains_key(keys.source@) ==> r
                    == Some(known[keys.source@])
            }),
    {
        proof {
            lemma_lookup_changes_nothing_else(self.peers(), keys@);
        }
        let slot: usize = match handle_of(&self.projects, keys.project.as_str()) {
            Some(slot) => slot,
            None => {
                return None;
            },
        };
        let ghost before = self.peers();
        let ghost project = keys.project@;
        if let Some(handle) = handle_of(&self.peers[slot], keys.direct.as_str()) {
            return Some(handle);
        }
        match handle_of(&self.peers[slot], keys.source.as_str()) {
            Some(handle) => {
                insert_optional_peer_dep_cache_aliases(&mut self.peers[slot], keys, handle);
                proof {
                    assert(self.peers() =~= before.insert(
                        project,
                        with_aliases(before[project], keys@, handle),
                    ));
                }
                Some(handle)
            },
            None => None,
        }
    }

    /// Keeps the handle of optional peer dependencies that were loaded just now. A handle that is
    /// there already stands.
    pub fn keep_package_json_optional_peer_dep(&mut self, keys: &PeerKeys, handle: usize) -> (kept:
        usize)
        requires
            old(self).well_formed(),
        ensures
            final(self).well_formed(),
            final(self).side_effects() == old(self).side_effects(),
            kept == kept_handle(old(self).peers(), keys@, handle),
            final(self).peers() == peers_after_keep(old(self).peers(), keys@, handle),
    {
        let ghost start = self.peers();
        let ghost project = keys.project@;
        let ghost map = project_map(start, project);
        let slot: usize = match handle_of(&self.projects, keys.project.as_str()) {
            Some(slot) => slot,
            None => {
                let slot: usize = self.peers.len();
                let ghost slots = shared_map::handle_entries(self.projects);
                self.peers.push(new_handles());
                insert_handle(&mut self.projects, keys.project.as_str(), slot);
                proof {
                    assert(self.peers() =~= start.insert(project, shared_map::no_handles()));
                }
                slot
            },
        };
        assert(shared_map::handle_entries(self.peers@[slot as int]) == map);
        assert(self.peers() =~= start.insert(project, map));
        let ghost middle = self.peers();
        match handle_of(&self.peers[slot], keys.source.as_str()) {
            Some(known) => {
                insert_optional_peer_dep_cache_aliases(&mut self.peers[slot], keys, known);
                assert(self.peers() =~= start.insert(project, with_aliases(map, keys@, known)));
                known
            },
            None => {
                insert_optional_peer_dep_cache_aliases(&mut self.peers[slot], keys, handle);
                insert_handle(&mut self.peers[slot], keys.source.as_str(), handle);
                assert(self.peers() =~= start.insert(
                    project,
                    with_aliases(map, keys@, handle).insert(keys.source@, handle),
                ));
                handle
            },
        }
    }
}

impl Default for PackageJsonCache {
    fn default() -> (cache: Self)
        ensures
            cache.well_formed(),
            cache.side_effects() == Map::<Seq<char>, usize>::empty(),
            cache.peers() == Map::<Seq<char>, Map<Seq<char>, usize>>::empty(),
    {
        PackageJsonCache::new()
    }
}

pub open spec fn project_map(
    peers: Map<Seq<char>, Map<Seq<char>, usize>>,
    project: Seq<char>,
) -> Map<Seq<char>, usize> {
    if peers.contains_key(project) {
        peers[project]
    } else {
        Map::empty()
    }
}

/// The handle that a look-up finds: by the path as given, else by the path below the project root.
pub open spec fn peer_handle(
    peers: Map<Seq<char>, Map<Seq<char>, usize>>,
    keys: KeysModel,
) -> Option<usize> {
    let map = project_map(peers, keys.project);
    if map.contains_key(keys.direct) {
        Some(map[keys.direct])
    } else if map.contains_key(keys.source) {
        Some(map[keys.source])
    } else {
        None
    }
}

pub open spec fn peers_after_lookup(
    peers: Map<Seq<char>, Map<Seq<char>, usize>>,
    keys: KeysModel,
) -> Map<Seq<char>, Map<Seq<char>, usize>> {
    let map = project_map(peers, keys.project);
    if !map.contains_key(keys.direct) && map.contains_key(keys.source) {
        peers.insert(keys.project, with_aliases(map, keys, map[keys.source]))
    } else {
        peers
    }
}

/// The handle that stands after a load.
pub open spec fn kept_handle(
    peers: Map<Seq<char>, Map<Seq<char>, usize>>,
    keys: KeysModel,
    handle: usize,
) -> usize {
    let map = project_map(peers, keys.project);
    if map.contains_key(keys.source) {
        map[keys.source]
    } else {
        handle
    }
}

pub open spec fn peers_after_keep(
    peers: Map<Seq<char>, Map<Seq<char>, usize>>,
    keys: KeysModel,
    handle: usize,
) -> Map<Seq<char>, Map<Seq<char>, usize>> {
    let map = project_map(peers, keys.project);
    let kept = kept_handle(peers, keys, handle);
    let aliased = with_aliases(map, keys, kept);
    peers.insert(
        keys.project,
        if map.contains_key(keys.source) {
            aliased
        } else {
            aliased.insert(keys.source, kept)
        },
    )
}

/// What was loaded is found again by the same path, and by the absolute spelling of a relative
/// path.
pub proof fn lemma_loaded_peers_are_found(
    peers: Map<Seq<char>, Map<Seq<char>, usize>>,
    keys: KeysModel,
    handle: usize,
)
    ensures
        ({
            let after = peers_after_keep(peers, keys, handle);
            let kept = kept_handle(peers, keys, handle);
            &&& peer_handle(after, keys) == Some(kept)
            &&& keys.alias matches Some(alias) ==> peer_handle(
                after,
                KeysModel { direct: alias, ..keys },
            ) == Some(kept)
        }),
{
}

// ---------------------------------------------------------------------------------------------
// The machine cache

/// Where the optional peer dependencies of a package are kept.
#[derive(Debug)]
pub struct OptionalPeerCacheTarget {
    pub config: DxMachineCacheConfig,
    pub source_path: String,
    pub paths: DxMachineCachePaths,
}

pub fn package_json_source_len_worth_machine_cache(source_len: usize) -> (r: bool)
    ensures
        r == (source_len > PACKAGE_JSON_MACHINE_MIN_SOURCE_BYTES),
{
    source_len > PACKAGE_JSON_MACHINE_MIN_SOURCE_BYTES
}

/// Only a large `package.json` has a place in the cache.
pub fn optional_peer_cache_target(
    project_root: &str,
    realpath: &str,
    source_len: usize,
    env_value: Option<String>,
    style: PathStyle,
) -> (r: Option<OptionalPeerCacheTarget>)
    ensures
        r is Some == (source_len > PACKAGE_JSON_MACHINE_MIN_SOURCE_BYTES
            && machine_cache::env_enables(env_value)),
        r matches Some(target) ==> {
            let root = machine_cache::cache_root(project_root@, style);
            let source_path = path_text::path_below(project_root@, realpath@, style);
            &&& target.config.enabled
            &&& target.config.root@ == root
            &&& target.config.style == style
            &&& target.source_path@ == source_path
            &&& (target.paths.machine@, target.paths.metadata@) == machine_cache::artifact_paths(
                root,
                project_root@,
                OPTIONAL_PEER_CACHE_NAMESPACE@,
                source_path,
                style,
            )
        },
{
    if !package_json_source_len_worth_machine_cache(source_len) {
        return None;
    }
    let config: DxMachineCacheConfig = DxMachineCacheConfig::from_env_value_if_enabled(
        project_root,
        env_value,
        style,
    )?;
    let source_path: String = machine_source_path(project_root, realpath, style);
    let paths: DxMachineCachePaths = config.paths_for_source(
        project_root,
        OPTIONAL_PEER_CACHE_NAMESPACE,
        source_path.as_str(),
    );
    Some(OptionalPeerCacheTarget { config, source_path, paths })
}

/// What the cache knows of a `package.json`: its optional peer dependencies, or the digest of the
/// source whose payload is to be written anew, or nothing.
pub enum OptionalPeerRead {
    Found(PackageJsonOptionalPeerDependencies),
    Repair([u8; 32]),
    Miss,
}

pub open spec fn looked_up(
    target: OptionalPeerCacheTarget,
    source_bytes: Seq<u8>,
    files: MachineCacheFiles,
) -> DxMachineCacheStatus<machine_cache::HitModel> {
    machine_cache::validated_read(
        target.config.enabled,
        target.paths.machine@,
        target.source_path@,
        source_bytes,
        files.metadata@,
        machine_cache::parsed_model(files.parsed),
        files.machine@,
        target.config.style,
    )
}

pub fn consult_optional_peer_cache(
    target: &OptionalPeerCacheTarget,
    source_bytes: &[u8],
    files: MachineCacheFiles,
) -> (r: OptionalPeerRead)
    ensures
        match looked_up(*target, source_bytes@, files) {
            DxMachineCacheStatus::Hit(hit) => match package_json::decoded_peers(
                hit.machine_bytes,
            ) {
                Some((name, listed)) => r matches OptionalPeerRead::Found(peers)
                    && peers.well_formed() && peers@ == (package_json::PeersModel {
                    name,
                    optional: listed.to_set(),
                }),
                None => r matches OptionalPeerRead::Repair(hash) && hash@ == hit.source_hash,
            },
            _ => r is Miss,
        },
{
    match target.config.read_validated_machine_with_source_hash(
        &target.paths,
        target.source_path.as_str(),
        source_bytes,
        files,
    ) {
        DxMachineCacheStatus::Hit(hit) => {
            match decode_package_json_optional_peer_dependencies_machine_payload(
                hit.machine_bytes.as_slice(),
            ) {
                Some(peers) => OptionalPeerRead::Found(peers),
                None => OptionalPeerRead::Repair(hit.source_hash),
            }
        },
        _ => OptionalPeerRead::Miss,
    }
}

/// What to write for a package. One without optional peer dependencies is written only to mend a
/// payload that could not be read.
pub fn write_optional_peers(
    target: &OptionalPeerCacheTarget,
    source_bytes: &[u8],
    parsed: &PackageJsonOptionalPeerDependencies,
    source_hash: Option<[u8; 32]>,
) -> (r: Option<MachineArtifactWrite>)
    ensures
        ({
            let bytes = package_json::encoded_peers(parsed.name@, parsed.listed());
            &&& r is Some == {
                &&& source_hash is Some || parsed.optional_peer_dependencies@.len() > 0
                &&& package_json::peers_payload_fits(parsed.name@, parsed.listed())
                &&& target.config.enabled
                &&& machine_cache::size_benefits(source_bytes@.len(), bytes.len())
            }
            &&& r matches Some(write) ==> {
                &&& write.machine.path@ == target.paths.machine@
                &&& write.machine.bytes@ == bytes
                &&& write.metadata.path@ == target.paths.metadata@
                &&& write.metadata.bytes@ == machine_write::metadata_bytes(
                    target.source_path@,
                    source_bytes@.len(),
                    digest::effective_hash(source_hash, source_bytes@),
                    target.paths.machine@,
                    bytes,
                    target.config.style,
                )
            }
        }),
{
    if source_hash.is_none() && parsed.optional_peer_dependencies.len() == 0 {
        return None;
    }
    let machine_bytes: Vec<u8> = encode_package_json_optional_peer_dependencies_machine_payload(
        parsed,
    )?;
    match source_hash {
        Some(hash) => target.config.write_machine_artifact_with_source_hash(
            &target.paths,
            target.source_path.as_str(),
            source_bytes.len(),
            &hash,
            machine_bytes.as_slice(),
        ),
        None => target.config.write_machine_artifact(
            &target.paths,
            target.source_path.as_str(),
            source_bytes,
            machine_bytes.as_slice(),
        ),
    }
}

/// What is written for a package is read back as it was, for the same source, as long as the
/// files are within the sizes that a reader accepts.
pub proof fn lemma_written_peers_read_back(
    target: OptionalPeerCacheTarget,
    source_bytes: Seq<u8>,
    name: Seq<char>,
    listed: Seq<Seq<char>>,
    files: MachineCacheFiles,
)
    requires
        target.config.enabled,
        package_json::is_encodable_peers(name, listed),
        source_bytes.len() <= u64::MAX,
        ({
            let bytes = package_json::encoded_peers(name, listed);
            let metadata = machine_write::metadata_bytes(
                target.source_path@,
                source_bytes.len(),
                digest::blake3_digest(source_bytes),
                target.paths.machine@,
                bytes,
                target.config.style,
            );
            &&& machine_cache::size_benefits(source_bytes.len(), bytes.len())
            &&& bytes.len() <= crate::metadata::DX_MACHINE_MAX_BYTES
            &&& metadata.len() <= machine_cache::DX_MACHINE_METADATA_MAX_BYTES
            &&& files.machine@ == machine_cache::FileModel::Bytes(bytes)
            &&& files.metadata@ == machine_cache::FileModel::Bytes(metadata)
        }),
    ensures
        looked_up(target, source_bytes, files) matches DxMachineCacheStatus::Hit(hit)
            && package_json::decoded_peers(hit.machine_bytes) == Some((name, listed)),
{
    package_json::lemma_peers_round_trip(name, listed);
    machine_write::lemma_write_then_read_hits(
        target.paths.machine@,
        target.source_path@,
        source_bytes,
        package_json::encoded_peers(name, listed),
        machine_cache::parsed_model(files.parsed),
        target.config.style,
    );
}

/// Keeping the peers of one package touches no other project, and in its own project only the keys of
/// that package, all of which then lead to what was kept.
pub proof fn lemma_keeping_peers_changes_nothing_else(
    peers: Map<Seq<char>, Map<Seq<char>, usize>>,
    keys: KeysModel,
    handle: usize,
)
    ensures
        ({
            let after = peers_after_keep(peers, keys, handle);
            let before = project_map(peers, keys.project);
            let own = project_map(after, keys.project);
            &&& forall|project: Seq<char>|
                project != keys.project ==> #[trigger] project_map(after, project) == project_map(
                    peers,
                    project,
                )
            &&& forall|key: Seq<char>|
                key != keys.direct && key != keys.source && keys.alias != Some(key) ==> (
                #[trigger] own.contains_key(key) == before.contains_key(key)) && (before.contains_key(
                    key,
                ) ==> own[key] == before[key])
            &&& before.contains_key(keys.source) ==> kept_handle(peers, keys, handle)
                == before[keys.source]
            &&& !before.contains_key(keys.source) ==> kept_handle(peers, keys, handle) == handle
            &&& own.contains_key(keys.source) && own[keys.source] == kept_handle(
                peers,
                keys,
                handle,
            )
            &&& own.contains_key(keys.direct) && own[keys.direct] == kept_handle(
                peers,
                keys,
                handle,
            )
        }),
{
}

/// Spellings of one path have one key, and different paths have different keys. A dot in front makes
/// no difference.
pub proof fn lemma_cache_key(left: Seq<char>, right: Seq<char>, style: PathStyle)
    ensures
        path_text::same_path(left, right, style) ==> cache_key(left, style) == cache_key(
            right,
            style,
        ),
        !path_text::starts_in_place(left, style) && !path_text::starts_in_place(right, style)
            && cache_key(left, style) == cache_key(right, style) ==> path_text::same_path(
            left,
            right,
            style,
        ),
        path_text::starts_in_place(left, style) ==> cache_key(left, style) == text::joined(
            path_text::named_parts(left, style),
            '/',
        ),
{
    if !path_text::starts_in_place(left, style) && !path_text::starts_in_place(right, style) {
        if cache_key(left, style) == cache_key(right, style) {
            path_text::lemma_same_key_same_path(left, right, style);
        }
    }
    if path_text::starts_in_place(left, style) {
        assert(cache_key(left, style) =~= text::joined(path_text::named_parts(left, style), '/'));
    }
    if path_text::starts_in_place(right, style) {
        assert(cache_key(right, style) =~= text::joined(path_text::named_parts(right, style), '/'));
    }
    if path_text::same_path(left, right, style) {
        lemma_same_lead_same_root(left, right, style);
    }
}

proof fn lemma_same_lead_same_root(left: Seq<char>, right: Seq<char>, style: PathStyle)
    requires
        path_text::lead_text(left, style) == path_text::lead_text(right, style),
    ensures
        path_text::root_text(left, style) == path_text::root_text(right, style),
{
    let l = path_text::lead_text(left, style);
    let r = path_text::lead_text(right, style);
    if path_text::starts_in_place(left, style) {
        assert(l[0] == '.');
        if !path_text::starts_in_place(right, style) {
            assert(r.len() > 0 ==> r[0] == '/');
        }
    } else if path_text::starts_in_place(right, style) {
        assert(r[0] == '.');
        assert(l.len() > 0 ==> l[0] == '/');
    }
}

/// A lookup finds the same handle again, and touches no other project and no other key.
pub proof fn lemma_lookup_changes_nothing_else(
    peers: Map<Seq<char>, Map<Seq<char>, usize>>,
    keys: KeysModel,
)
    ensures
        ({
            let after = peers_after_lookup(peers, keys);
            let before = project_map(peers, keys.project);
            let own = project_map(after, keys.project);
            &&& peer_handle(after, keys) == peer_handle(peers, keys)
            &&& forall|project: Seq<char>|
                project != keys.project ==> #[trigger] project_map(after, project) == project_map(
                    peers,
                    project,
                )
            &&& forall|key: Seq<char>|
                key != keys.direct && keys.alias != Some(key) ==> (#[trigger] own.contains_key(key)
                    == before.contains_key(key)) && (before.contains_key(key) ==> own[key]
                    == before[key])
            &&& before.contains_key(keys.source) ==> own.contains_key(keys.direct)
        }),
{
}

} // verus!
