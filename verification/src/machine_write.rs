//! What a cache write puts on disk, and the steps by which one file is replaced.

use vstd::prelude::*;
use vstd::utf8::*;
use crate::decimal;
use crate::decimal::{decimal_u128_len, push_decimal_u32, push_decimal_u64};
use crate::digest;
use crate::digest::blake3_hash;
use crate::machine_cache;
use crate::machine_cache::{env_enables_dx_machine_cache, machine_artifact_benefits_source_size,
    DxMachineCacheConfig, DxMachineCachePaths, DxMachineCacheStatus,
    DX_MACHINE_READ_PREALLOC_MAX_BYTES};
use crate::metadata;
use crate::metadata::machine_metadata_json_with_source_hash;
use crate::path_text;
use crate::path_text::PathStyle;
use crate::text::{byte_len, chars_of, text_with_room};

verus! {

/// A file and the bytes it is to hold.
#[derive(Debug, Clone, PartialEq, Eq)]
pub struct FileWrite {
    pub path: String,
    pub bytes: Vec<u8>,
}

/// The two files of an artifact, in the order in which they are written.
#[derive(Debug, Clone, PartialEq, Eq)]
pub struct MachineArtifactWrite {
    pub machine: FileWrite,
    pub metadata: FileWrite,
}

/// Whether writes are forced to disk before they count.
#[derive(Debug, Clone, Copy, PartialEq, Eq, Structural)]
pub struct DxMachineCacheWriteOptions {
    pub sync_writes: bool,
}

impl Default for DxMachineCacheWriteOptions {
    fn default() -> (options: Self)
        ensures
            options.sync_writes,
    {
        DxMachineCacheWriteOptions { sync_writes: true }
    }
}

impl DxMachineCacheWriteOptions {
    pub fn from_env_value(env_value: Option<String>) -> (options: Self)
        ensures
            options.sync_writes == !machine_cache::env_enables(env_value),
    {
        DxMachineCacheWriteOptions { sync_writes: !env_enables_dx_machine_cache(&env_value) }
    }
}

/// The bytes of the metadata file for an artifact.
pub open spec fn metadata_bytes(
    source_path: Seq<char>,
    source_len: nat,
    source_hash: Seq<u8>,
    machine_path: Seq<char>,
    machine_bytes: Seq<u8>,
    style: PathStyle,
) -> Seq<u8> {
    encode_utf8(
        metadata::written_metadata(
            source_path,
            source_len,
            source_hash,
            machine_path,
            machine_bytes,
            style,
        ),
    )
}

pub fn copy_bytes(bytes: &[u8]) -> (copy: Vec<u8>)
    ensures
        copy@ == bytes@,
{
    let mut copy: Vec<u8> = Vec::with_capacity(bytes.len());
    let mut i: usize = 0;
    while i < bytes.len()
        invariant
            i <= bytes.len(),
            copy@ == bytes@.take(i as int),
        decreases bytes.len() - i,
    {
        copy.push(bytes[i]);
        assert(bytes@.take(i + 1) =~= bytes@.take(i as int).push(bytes@[i as int]));
        i = i + 1;
    }
    assert(bytes@.take(i as int) =~= bytes@);
    copy
}

impl DxMachineCacheConfig {
    /// What to write for a source whose digest is already known; `None` where the cache is off or
    /// the artifact is not worth keeping.
    pub fn write_machine_artifact_with_source_hash(
        &self,
        paths: &DxMachineCachePaths,
        source_path: &str,
        source_len: usize,
        source_hash: &[u8; 32],
        machine_bytes: &[u8],
    ) -> (r: Option<MachineArtifactWrite>)
        ensures
            r is Some == (self.enabled && machine_cache::size_benefits(
                source_len as nat,
                machine_bytes@.len(),
            )),
            r matches Some(write) ==> {
                &&& write.machine.path@ == paths.machine@
                &&& write.machine.bytes@ == machine_bytes@
                &&& write.metadata.path@ == paths.metadata@
                &&& write.metadata.bytes@ == metadata_bytes(
                    source_path@,
                    source_len as nat,
                    source_hash@,
                    paths.machine@,
                    machine_bytes@,
                    self.style,
                )
            },
    {
        if !self.enabled {
            return None;
        }
        if !machine_artifact_benefits_source_size(source_len as u64, machine_bytes.len() as u64) {
            return None;
        }
        let document: String = machine_metadata_json_with_source_hash(
            source_path,
            source_len,
            source_hash,
            paths.machine.as_str(),
            machine_bytes,
            self.style,
        );
        Some(
            MachineArtifactWrite {
                machine: FileWrite {
                    path: paths.machine.clone(),
                    bytes: copy_bytes(machine_bytes),
                },
                metadata: FileWrite {
                    path: paths.metadata.clone(),
                    bytes: copy_bytes(document.as_str().as_bytes()),
                },
            },
        )
    }

    /// What to write for a source; its digest is computed only where there is something to write.
    pub fn write_machine_artifact(
        &self,
        paths: &DxMachineCachePaths,
        source_path: &str,
        source_bytes: &[u8],
        machine_bytes: &[u8],
    ) -> (r: Option<MachineArtifactWrite>)
        ensures
            r is Some == (self.enabled && machine_cache::size_benefits(
                source_bytes@.len(),
                machine_bytes@.len(),
            )),
            r matches Some(write) ==> {
                &&& write.machine.path@ == paths.machine@
                &&& write.machine.bytes@ == machine_bytes@
                &&& write.metadata.path@ == paths.metadata@
                &&& write.metadata.bytes@ == metadata_bytes(
                    source_path@,
                    source_bytes@.len(),
                    digest::blake3_digest(source_bytes@),
                    paths.machine@,
                    machine_bytes@,
                    self.style,
                )
            },
    {
        if !self.enabled {
            return None;
        }
        if !machine_artifact_benefits_source_size(
            source_bytes.len() as u64,
            machine_bytes.len() as u64,
        ) {
            return None;
        }
        let source_hash: [u8; 32] = blake3_hash(source_bytes);
        self.write_machine_artifact_with_source_hash(
            paths,
            source_path,
            source_bytes.len(),
            &source_hash,
            machine_bytes,
        )
    }
}

proof fn lemma_written_metadata_reads_back(
    source_path: Seq<char>,
    source_len: nat,
    source_hash: Seq<u8>,
    machine_path: Seq<char>,
    machine_bytes: Seq<u8>,
    style: PathStyle,
)
    requires
        source_hash.len() == 32,
        source_len <= u64::MAX,
        machine_bytes.len() <= u64::MAX,
    ensures
        metadata::canonical_document_of_bytes(
            metadata_bytes(
                source_path,
                source_len,
                source_hash,
                machine_path,
                machine_bytes,
                style,
            ),
        ) == Some(
            metadata::written_document(
                metadata::fresh_entry(source_path, source_len, source_hash, style),
                metadata::fresh_entry(
                    machine_path,
                    machine_bytes.len(),
                    digest::blake3_digest(machine_bytes),
                    style,
                ),
            ),
        ),
{
    digest::lemma_hex_text_shape(source_hash);
    digest::lemma_hex_text_shape(digest::blake3_digest(machine_bytes));
    let document = metadata::written_metadata(
        source_path,
        source_len,
        source_hash,
        machine_path,
        machine_bytes,
        style,
    );
    encode_utf8_valid_utf8(document);
    encode_utf8_decode_utf8(document);
    metadata::lemma_canonical_round_trip(
        metadata::fresh_entry(source_path, source_len, source_hash, style),
        metadata::null_word(),
        metadata::fresh_entry(
            machine_path,
            machine_bytes.len(),
            digest::blake3_digest(machine_bytes),
            style,
        ),
    );
}

/// What was written for a source is a hit for that source, with the machine bytes and the digest
/// of the source, as long as the files are within the sizes that a reader accepts.
pub proof fn lemma_write_then_read_hits(
    machine_path: Seq<char>,
    source_path: Seq<char>,
    source_bytes: Seq<u8>,
    machine_bytes: Seq<u8>,
    parsed: Option<metadata::DocumentModel>,
    style: PathStyle,
)
    requires
        machine_cache::size_benefits(source_bytes.len(), machine_bytes.len()),
        source_bytes.len() <= u64::MAX,
        machine_bytes.len() <= metadata::DX_MACHINE_MAX_BYTES,
        metadata_bytes(
            source_path,
            source_bytes.len(),
            digest::blake3_digest(source_bytes),
            machine_path,
            machine_bytes,
            style,
        ).len() <= machine_cache::DX_MACHINE_METADATA_MAX_BYTES,
    ensures
        machine_cache::validated_read(
            true,
            machine_path,
            source_path,
            source_bytes,
            machine_cache::FileModel::Bytes(
                metadata_bytes(
                    source_path,
                    source_bytes.len(),
                    digest::blake3_digest(source_bytes),
                    machine_path,
                    machine_bytes,
                    style,
                ),
            ),
            parsed,
            machine_cache::FileModel::Bytes(machine_bytes),
            style,
        ) == DxMachineCacheStatus::Hit(
            machine_cache::HitModel {
                machine_bytes,
                source_hash: digest::blake3_digest(source_bytes),
            },
        ),
{
    lemma_written_metadata_reads_back(
        source_path,
        source_bytes.len(),
        digest::blake3_digest(source_bytes),
        machine_path,
        machine_bytes,
        style,
    );
    digest::lemma_hex_text_shape(digest::blake3_digest(source_bytes));
    digest::lemma_hex_text_shape(digest::blake3_digest(machine_bytes));
    metadata::lemma_recorded_path_matches(source_path, style);
    metadata::lemma_recorded_path_matches(machine_path, style);
}

/// What was written for a source is no hit for a source with another digest or another length:
/// the look-up is invalid, whatever the machine file holds.
pub proof fn lemma_changed_source_is_invalid(
    machine_path: Seq<char>,
    source_path: Seq<char>,
    source_bytes: Seq<u8>,
    changed_bytes: Seq<u8>,
    machine_bytes: Seq<u8>,
    parsed: Option<metadata::DocumentModel>,
    machine_file: machine_cache::FileModel,
    style: PathStyle,
)
    requires
        source_bytes.len() <= u64::MAX,
        machine_bytes.len() <= u64::MAX,
        changed_bytes.len() != source_bytes.len() || digest::blake3_digest(changed_bytes)
            != digest::blake3_digest(source_bytes),
    ensures
        machine_cache::validated_read(
            true,
            machine_path,
            source_path,
            changed_bytes,
            machine_cache::FileModel::Bytes(
                metadata_bytes(
                    source_path,
                    source_bytes.len(),
                    digest::blake3_digest(source_bytes),
                    machine_path,
                    machine_bytes,
                    style,
                ),
            ),
            parsed,
            machine_file,
            style,
        ) is Invalid,
{
    lemma_written_metadata_reads_back(
        source_path,
        source_bytes.len(),
        digest::blake3_digest(source_bytes),
        machine_path,
        machine_bytes,
        style,
    );
    if digest::hex_text(digest::blake3_digest(source_bytes)) == digest::hex_text(
        digest::blake3_digest(changed_bytes),
    ) {
        digest::lemma_hex_text_injective(
            digest::blake3_digest(source_bytes),
            digest::blake3_digest(changed_bytes),
        );
    }
}

/// Where only the metadata of a source is left, a look-up for that source is a miss, and one for a
/// source with another digest or another length is invalid: a stale source outranks a missing
/// machine file.
pub proof fn lemma_stale_source_outranks_missing_machine(
    machine_path: Seq<char>,
    source_path: Seq<char>,
    source_bytes: Seq<u8>,
    changed_bytes: Seq<u8>,
    machine_bytes: Seq<u8>,
    parsed: Option<metadata::DocumentModel>,
    style: PathStyle,
)
    requires
        machine_cache::size_benefits(source_bytes.len(), machine_bytes.len()),
        source_bytes.len() <= u64::MAX,
        machine_bytes.len() <= metadata::DX_MACHINE_MAX_BYTES,
        metadata_bytes(
            source_path,
            source_bytes.len(),
            digest::blake3_digest(source_bytes),
            machine_path,
            machine_bytes,
            style,
        ).len() <= machine_cache::DX_MACHINE_METADATA_MAX_BYTES,
        changed_bytes.len() != source_bytes.len() || digest::blake3_digest(changed_bytes)
            != digest::blake3_digest(source_bytes),
    ensures
        ({
            let metadata_file = machine_cache::FileModel::Bytes(
                metadata_bytes(
                    source_path,
                    source_bytes.len(),
                    digest::blake3_digest(source_bytes),
                    machine_path,
                    machine_bytes,
                    style,
                ),
            );
            let missing = machine_cache::FileModel::NotFound;
            &&& machine_cache::validated_read(
                true,
                machine_path,
                source_path,
                source_bytes,
                metadata_file,
                parsed,
                missing,
                style,
            ) is Miss
            &&& machine_cache::validated_read(
                true,
                machine_path,
                source_path,
                changed_bytes,
                metadata_file,
                parsed,
                missing,
                style,
            ) is Invalid
        }),
{
    lemma_write_then_read_hits(
        machine_path,
        source_path,
        source_bytes,
        machine_bytes,
        parsed,
        style,
    );
    lemma_changed_source_is_invalid(
        machine_path,
        source_path,
        source_bytes,
        changed_bytes,
        machine_bytes,
        parsed,
        machine_cache::FileModel::NotFound,
        style,
    );
}

/// A machine file whose length or digest is not the recorded one is never a hit.
pub proof fn lemma_changed_machine_is_no_hit(
    enabled: bool,
    machine_path: Seq<char>,
    source_path: Seq<char>,
    source_bytes: Seq<u8>,
    machine_bytes: Seq<u8>,
    source_hash: Seq<u8>,
    parsed: Option<metadata::DocumentModel>,
    found_bytes: Seq<u8>,
    style: PathStyle,
)
    requires
        source_hash.len() == 32,
        source_bytes.len() <= u64::MAX,
        machine_bytes.len() <= u64::MAX,
        found_bytes.len() != machine_bytes.len() || digest::blake3_digest(found_bytes)
            != digest::blake3_digest(machine_bytes),
    ensures
        !(machine_cache::validated_read(
            enabled,
            machine_path,
            source_path,
            source_bytes,
            machine_cache::FileModel::Bytes(
                metadata_bytes(
                    source_path,
                    source_bytes.len(),
                    source_hash,
                    machine_path,
                    machine_bytes,
                    style,
                ),
            ),
            parsed,
            machine_cache::FileModel::Bytes(found_bytes),
            style,
        ) is Hit),
{
    lemma_written_metadata_reads_back(
        source_path,
        source_bytes.len(),
        source_hash,
        machine_path,
        machine_bytes,
        style,
    );
    if digest::hex_text(digest::blake3_digest(found_bytes)) == digest::hex_text(
        digest::blake3_digest(machine_bytes),
    ) {
        digest::lemma_hex_text_injective(
            digest::blake3_digest(found_bytes),
            digest::blake3_digest(machine_bytes),
        );
    }
}

/// The metadata that is written for a source vouches for the artifact that it was written with.
pub proof fn lemma_written_metadata_vouches(
    source_path: Seq<char>,
    source_bytes: Seq<u8>,
    machine_path: Seq<char>,
    machine_bytes: Seq<u8>,
    parsed: Option<metadata::DocumentModel>,
    style: PathStyle,
)
    requires
        machine_cache::size_benefits(source_bytes.len(), machine_bytes.len()),
        source_bytes.len() <= metadata::DX_MACHINE_MAX_BYTES,
    ensures
        machine_cache::metadata_vouches(
            machine_cache::effective_document(
                metadata_bytes(
                    source_path,
                    source_bytes.len(),
                    digest::blake3_digest(source_bytes),
                    machine_path,
                    machine_bytes,
                    style,
                ),
                parsed,
            ),
            source_path,
            source_bytes,
            machine_path,
            machine_bytes,
            style,
        ),
{
    lemma_written_metadata_reads_back(
        source_path,
        source_bytes.len(),
        digest::blake3_digest(source_bytes),
        machine_path,
        machine_bytes,
        style,
    );
    digest::lemma_hex_text_shape(digest::blake3_digest(source_bytes));
    digest::lemma_hex_text_shape(digest::blake3_digest(machine_bytes));
    metadata::lemma_recorded_path_matches(source_path, style);
    metadata::lemma_recorded_path_matches(machine_path, style);
}

// ---------------------------------------------------------------------------------------------
// Reading whole files

/// How much room to reserve before a file of at most `max_len` bytes is read.
pub fn read_file_initial_capacity(initial_capacity: u64, max_len: u64) -> (capacity: usize)
    ensures
        capacity <= initial_capacity,
        capacity <= max_len,
        capacity <= DX_MACHINE_READ_PREALLOC_MAX_BYTES,
        capacity == initial_capacity || capacity == max_len || capacity
            == DX_MACHINE_READ_PREALLOC_MAX_BYTES,
{
    let wanted: u64 = if initial_capacity < max_len {
        initial_capacity
    } else {
        max_len
    };
    let capped: u64 = if wanted < DX_MACHINE_READ_PREALLOC_MAX_BYTES {
        wanted
    } else {
        DX_MACHINE_READ_PREALLOC_MAX_BYTES
    };
    capped as usize
}

/// The next offset where `chunk` continues `bytes` at `offset`.
pub fn chunk_continues(bytes: &[u8], offset: usize, chunk: &[u8]) -> (next: Option<usize>)
    requires
        offset <= bytes@.len(),
    ensures
        next is Some == (offset + chunk@.len() <= bytes@.len() && bytes@.subrange(
            offset as int,
            offset + chunk@.len(),
        ) == chunk@),
        next matches Some(end) ==> end == offset + chunk@.len(),
{
    if chunk.len() > bytes.len() - offset {
        return None;
    }
    let mut i: usize = 0;
    while i < chunk.len()
        invariant
            offset <= bytes@.len() <= usize::MAX,
            i <= chunk@.len() <= bytes@.len() - offset,
            forall|j: int| 0 <= j < i ==> #[trigger] chunk@[j] == bytes@[offset + j],
        decreases chunk@.len() - i,
    {
        if chunk[i] != bytes[offset + i] {
            assert(bytes@.subrange(offset as int, offset + chunk@.len())[i as int]
                == bytes@[offset + i]);
            return None;
        }
        i = i + 1;
    }
    assert(bytes@.subrange(offset as int, offset + chunk@.len()) =~= chunk@);
    Some(offset + chunk.len())
}

pub open spec fn chunk_bytes(chunks: Seq<Vec<u8>>) -> Seq<u8>
    decreases chunks.len(),
{
    if chunks.len() == 0 {
        Seq::empty()
    } else {
        chunk_bytes(chunks.drop_last()) + chunks.last()@
    }
}

proof fn lemma_chunk_bytes_prefix(chunks: Seq<Vec<u8>>, count: int)
    requires
        0 <= count <= chunks.len(),
    ensures
        chunk_bytes(chunks.take(count)).is_prefix_of(chunk_bytes(chunks)),
    decreases chunks.len() - count,
{
    let part = chunk_bytes(chunks.take(count));
    let whole = chunk_bytes(chunks);
    if count == chunks.len() {
        assert(chunks.take(count) =~= chunks);
        assert(whole.subrange(0, whole.len() as int) =~= whole);
    } else {
        lemma_chunk_bytes_prefix(chunks, count + 1);
        assert(chunks.take(count + 1).drop_last() =~= chunks.take(count));
        let longer = chunk_bytes(chunks.take(count + 1));
        assert(longer =~= part + chunks[count]@);
        assert(whole.subrange(0, part.len() as int) =~= longer.subrange(0, part.len() as int));
        assert(longer.subrange(0, part.len() as int) =~= part);
    }
}

/// Whether the chunks, read one after the other, are exactly `bytes`.
pub fn reader_matches_bytes(chunks: &Vec<Vec<u8>>, bytes: &[u8]) -> (r: bool)
    ensures
        r == (chunk_bytes(chunks@) == bytes@),
        r == (chunks@.map_values(|chunk: Vec<u8>| chunk@).flatten() == bytes@),
{
    proof {
        lemma_chunk_bytes_are_flattened(chunks@);
    }
    let mut offset: usize = 0;
    let mut i: usize = 0;
    assert(bytes@.take(0) =~= chunk_bytes(chunks@.take(0)));
    while i < chunks.len()
        invariant
            i <= chunks.len(),
            offset <= bytes@.len(),
            bytes@.take(offset as int) == chunk_bytes(chunks@.take(i as int)),
            offset == chunk_bytes(chunks@.take(i as int)).len(),
        decreases chunks.len() - i,
    {
        proof {
            lemma_chunk_bytes_prefix(chunks@, i + 1);
            assert(chunks@.take(i + 1).drop_last() =~= chunks@.take(i as int));
        }
        match chunk_continues(bytes, offset, chunks[i].as_slice()) {
            Some(end) => {
                proof {
                    let joined = chunk_bytes(chunks@.take(i + 1));
                    assert(joined =~= bytes@.take(offset as int) + chunks@[i as int]@);
                    assert(bytes@.take(end as int) =~= bytes@.take(offset as int)
                        + bytes@.subrange(offset as int, end as int));
                }
                offset = end;
            },
            None => {
                proof {
                    let joined = chunk_bytes(chunks@.take(i + 1));
                    let chunk = chunks@[i as int]@;
                    assert(joined =~= chunk_bytes(chunks@.take(i as int)) + chunk);
                    if chunk_bytes(chunks@) == bytes@ {
                        assert(joined == bytes@.subrange(0, joined.len() as int));
                        assert(joined.subrange(offset as int, joined.len() as int) =~= chunk);
                        assert(bytes@.subrange(offset as int, offset + chunk.len()) =~= chunk);
                    }
                    lemma_chunk_bytes_are_flattened(chunks@);
                }
                return false;
            },
        }
        i = i + 1;
    }
    proof {
        assert(chunks@.take(i as int) =~= chunks@);
        if offset == bytes@.len() {
            assert(bytes@.take(offset as int) =~= bytes@);
        }
    }
    offset == bytes.len()
}

// ---------------------------------------------------------------------------------------------
// Replacing one file

/// `<file name>.<process id>.<counter>.tmp`.
pub open spec fn temp_file_name(file_name: Seq<char>, process_id: nat, counter: nat) -> Seq<char> {
    file_name.push('.') + decimal::decimal_text(process_id).push('.') + decimal::decimal_text(
        counter,
    ) + ".tmp"@
}

pub fn atomic_temp_file_name(file_name: &str, process_id: u32, counter: u64) -> (output: String)
    ensures
        output@ == temp_file_name(file_name@, process_id as nat, counter as nat),
{
    let room: usize = byte_len(file_name).saturating_add(
        decimal_u128_len(process_id as u128),
    ).saturating_add(decimal_u128_len(counter as u128)).saturating_add(6);
    let mut output: String = text_with_room(room);
    output.push_str(file_name);
    output.push('.');
    push_decimal_u32(&mut output, process_id);
    output.push('.');
    push_decimal_u64(&mut output, counter);
    output.push_str(".tmp");
    assert(output@ =~= temp_file_name(file_name@, process_id as nat, counter as nat));
    output
}

/// Two writers of one process never share a temporary file.
pub proof fn lemma_temp_names_differ(
    file_name: Seq<char>,
    process_id: nat,
    first: nat,
    second: nat,
)
    requires
        first != second,
    ensures
        temp_file_name(file_name, process_id, first) != temp_file_name(
            file_name,
            process_id,
            second,
        ),
{
    let front = file_name.push('.') + decimal::decimal_text(process_id).push('.');
    let a = temp_file_name(file_name, process_id, first);
    let b = temp_file_name(file_name, process_id, second);
    if a == b {
        let suffix = ".tmp"@;
        assert(a.subrange(front.len() as int, a.len() - suffix.len()) =~= decimal::decimal_text(
            first,
        ));
        assert(b.subrange(front.len() as int, b.len() - suffix.len()) =~= decimal::decimal_text(
            second,
        ));
        decimal::lemma_decimal_text_injective(first, second);
    }
}

/// The temporary file beside `path`.
pub open spec fn temp_path(path: Seq<char>, process_id: nat, counter: nat) -> Seq<char> {
    let file_name = path_text::segments(path).last();
    path.take(path.len() - file_name.len()) + temp_file_name(file_name, process_id, counter)
}

pub fn atomic_temp_path(path: &str, process_id: u32, counter: u64) -> (output: String)
    ensures
        output@ == temp_path(path@, process_id as nat, counter as nat),
        output@ == path@ + seq!['.'] + decimal::decimal_text(process_id as nat) + seq!['.']
            + decimal::decimal_text(counter as nat) + ".tmp"@,
{
    proof {
        lemma_temp_path_extends_target(path@, process_id as nat, counter as nat);
    }
    let chars: Vec<char> = chars_of(path);
    let mut directory: String = String::new();
    let mut file_name: String = String::new();
    let mut i: usize = 0;
    assert(path@.take(0) =~= Seq::empty());
    while i < chars.len()
        invariant
            chars@ == path@,
            i <= chars.len(),
            path_text::segments(path@.take(i as int)).len() > 0,
            file_name@ == path_text::segments(path@.take(i as int)).last(),
            directory@ + file_name@ == path@.take(i as int),
        decreases chars.len() - i,
    {
        let ghost before = directory@ + file_name@;
        proof {
            assert(path@.take(i + 1).drop_last() =~= path@.take(i as int));
            assert(path@.take(i + 1) =~= path@.take(i as int).push(path@[i as int]));
        }
        if path_text::metadata_path_byte_is_separator(chars[i]) {
            directory.push_str(file_name.as_str());
            directory.push(chars[i]);
            file_name = String::new();
            assert(directory@ + file_name@ =~= before.push(path@[i as int]));
        } else {
            file_name.push(chars[i]);
            assert(directory@ + file_name@ =~= before.push(path@[i as int]));
        }
        i = i + 1;
    }
    proof {
        assert(path@.take(i as int) =~= path@);
        assert(path@.take(path@.len() - file_name@.len()) =~= directory@);
    }
    let name: String = atomic_temp_file_name(file_name.as_str(), process_id, counter);
    directory.push_str(name.as_str());
    directory
}

/// One step of replacing a file.
#[derive(Debug, Clone, Copy, PartialEq, Eq, Structural)]
pub enum AtomicWriteStep {
    CompareExisting,
    CreateParent,
    RemoveStaleTemp,
    WriteTemp,
    SyncTemp,
    RemoveTarget,
    RenameTemp,
    RemoveTempAfterFailedRename,
    Succeeded,
    Failed,
}

/// What a step came to. For `CompareExisting`, `Done` means that the file already holds the bytes;
/// a removal counts as `Done` where there was nothing to remove.
#[derive(Debug, Clone, Copy, PartialEq, Eq, Structural)]
pub enum StepOutcome {
    Done,
    Failed,
}

pub open spec fn next_step(
    step: AtomicWriteStep,
    outcome: StepOutcome,
    has_parent: bool,
    sync_writes: bool,
) -> AtomicWriteStep {
    match (step, outcome) {
        (AtomicWriteStep::CompareExisting, StepOutcome::Done) => AtomicWriteStep::Succeeded,
        (AtomicWriteStep::CompareExisting, StepOutcome::Failed) => if has_parent {
            AtomicWriteStep::CreateParent
        } else {
            AtomicWriteStep::RemoveStaleTemp
        },
        (AtomicWriteStep::CreateParent, StepOutcome::Done) => AtomicWriteStep::RemoveStaleTemp,
        (AtomicWriteStep::RemoveStaleTemp, StepOutcome::Done) => AtomicWriteStep::WriteTemp,
        (AtomicWriteStep::WriteTemp, StepOutcome::Done) => if sync_writes {
            AtomicWriteStep::SyncTemp
        } else {
            AtomicWriteStep::RemoveTarget
        },
        (AtomicWriteStep::SyncTemp, StepOutcome::Done) => AtomicWriteStep::RemoveTarget,
        (AtomicWriteStep::RemoveTarget, StepOutcome::Done) => AtomicWriteStep::RenameTemp,
        (AtomicWriteStep::RenameTemp, StepOutcome::Done) => AtomicWriteStep::Succeeded,
        (AtomicWriteStep::RenameTemp, StepOutcome::Failed) => {
            AtomicWriteStep::RemoveTempAfterFailedRename
        },
        (AtomicWriteStep::Succeeded, _) => AtomicWriteStep::Succeeded,
        _ => AtomicWriteStep::Failed,
    }
}

/// The step after `step`, given what it came to.
pub fn atomic_write_next(
    step: AtomicWriteStep,
    outcome: StepOutcome,
    has_parent: bool,
    options: DxMachineCacheWriteOptions,
) -> (next: AtomicWriteStep)
    ensures
        next == next_step(step, outcome, has_parent, options.sync_writes),
{
    match (step, outcome) {
        (AtomicWriteStep::CompareExisting, StepOutcome::Done) => AtomicWriteStep::Succeeded,
        (AtomicWriteStep::CompareExisting, StepOutcome::Failed) => if has_parent {
            AtomicWriteStep::CreateParent
        } else {
            AtomicWriteStep::RemoveStaleTemp
        },
        (AtomicWriteStep::CreateParent, StepOutcome::Done) => AtomicWriteStep::RemoveStaleTemp,
        (AtomicWriteStep::RemoveStaleTemp, StepOutcome::Done) => AtomicWriteStep::WriteTemp,
        (AtomicWriteStep::WriteTemp, StepOutcome::Done) => if options.sync_writes {
            AtomicWriteStep::SyncTemp
        } else {
            AtomicWriteStep::RemoveTarget
        },
        (AtomicWriteStep::SyncTemp, StepOutcome::Done) => AtomicWriteStep::RemoveTarget,
        (AtomicWriteStep::RemoveTarget, StepOutcome::Done) => AtomicWriteStep::RenameTemp,
        (AtomicWriteStep::RenameTemp, StepOutcome::Done) => AtomicWriteStep::Succeeded,
        (AtomicWriteStep::RenameTemp, StepOutcome::Failed) => {
            AtomicWriteStep::RemoveTempAfterFailedRename
        },
        (AtomicWriteStep::Succeeded, _) => AtomicWriteStep::Succeeded,
        _ => AtomicWriteStep::Failed,
    }
}

/// How far a write is from its end.
pub open spec fn steps_left(step: AtomicWriteStep) -> nat {
    match step {
        AtomicWriteStep::CompareExisting => 8,
        AtomicWriteStep::CreateParent => 7,
        AtomicWriteStep::RemoveStaleTemp => 6,
        AtomicWriteStep::WriteTemp => 5,
        AtomicWriteStep::SyncTemp => 4,
        AtomicWriteStep::RemoveTarget => 3,
        AtomicWriteStep::RenameTemp => 2,
        AtomicWriteStep::RemoveTempAfterFailedRename => 1,
        AtomicWriteStep::Succeeded => 0,
        AtomicWriteStep::Failed => 0,
    }
}

/// Every write ends: each step but the last two brings the end nearer. A write succeeds only by
/// finding the bytes in place or by renaming the temporary file.
pub proof fn lemma_atomic_write_progress(
    step: AtomicWriteStep,
    outcome: StepOutcome,
    has_parent: bool,
    sync_writes: bool,
)
    ensures
        steps_left(step) > 0 ==> steps_left(next_step(step, outcome, has_parent, sync_writes))
            < steps_left(step),
        next_step(step, outcome, has_parent, sync_writes) is Succeeded ==> step is Succeeded || (
        outcome is Done && (step is CompareExisting || step is RenameTemp)),
{
}

/// The steps of a write: each is taken only behind the one before it. A target is given up only when
/// the new file is complete, and synced where that is asked for, and then the new file takes its
/// place. What fails on the way ends the write, except that a file that cannot be compared is written,
/// and that a failed rename cleans up first.
pub proof fn lemma_atomic_write_order(
    step: AtomicWriteStep,
    outcome: StepOutcome,
    has_parent: bool,
    sync_writes: bool,
)
    ensures
        ({
            let next = next_step(step, outcome, has_parent, sync_writes);
            &&& next is RenameTemp <==> step is RemoveTarget && outcome is Done
            &&& next is RemoveTarget <==> outcome is Done && (step is SyncTemp || (step is WriteTemp
                && !sync_writes))
            &&& next is SyncTemp <==> step is WriteTemp && outcome is Done && sync_writes
            &&& next is WriteTemp <==> step is RemoveStaleTemp && outcome is Done
            &&& next is RemoveStaleTemp <==> (step is CreateParent && outcome is Done) || (
            step is CompareExisting && outcome is Failed && !has_parent)
            &&& next is CreateParent <==> step is CompareExisting && outcome is Failed && has_parent
            &&& next is RemoveTempAfterFailedRename <==> step is RenameTemp && outcome is Failed
            &&& next is Succeeded <==> step is Succeeded || (outcome is Done && (
            step is CompareExisting || step is RenameTemp))
            &&& !(next is CompareExisting)
        }),
{
}

/// The new file stands beside the target, under the name of the target and more.
pub proof fn lemma_temp_path_extends_target(path: Seq<char>, process_id: nat, counter: nat)
    ensures
        path.is_prefix_of(temp_path(path, process_id, counter)),
        temp_path(path, process_id, counter) == path + seq!['.'] + decimal::decimal_text(process_id)
            + seq!['.'] + decimal::decimal_text(counter) + ".tmp"@,
        temp_path(path, process_id, counter) != path,
{
    let file_name = path_text::segments(path).last();
    path_text::lemma_last_segment(path, PathStyle::Windows);
    let temp = temp_path(path, process_id, counter);
    assert(path.take(path.len() - file_name.len()) + file_name =~= path);
    assert(temp =~= path + seq!['.'] + decimal::decimal_text(process_id) + seq!['.']
        + decimal::decimal_text(counter) + ".tmp"@);
    assert(temp.subrange(0, path.len() as int) =~= path);
    assert(temp.len() > path.len());
}

/// The chunks stand one behind the other.
pub proof fn lemma_chunk_bytes_are_flattened(chunks: Seq<Vec<u8>>)
    ensures
        chunk_bytes(chunks) == chunks.map_values(|chunk: Vec<u8>| chunk@).flatten(),
    decreases chunks.len(),
{
    let parts = chunks.map_values(|chunk: Vec<u8>| chunk@);
    parts.lemma_flatten_and_flatten_alt_are_equivalent();
    if chunks.len() > 0 {
        let before = chunks.drop_last().map_values(|chunk: Vec<u8>| chunk@);
        lemma_chunk_bytes_are_flattened(chunks.drop_last());
        before.lemma_flatten_and_flatten_alt_are_equivalent();
        assert(parts.drop_last() =~= before);
    }
}

} // verus!
