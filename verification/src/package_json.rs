//! What the bundler keeps of a `package.json`, and its binary payloads.

use vstd::prelude::*;
use vstd::utf8::*;
use crate::codec;
use crate::codec::{encoded_optional_string_len, encoded_string_len, encoded_strings_len,
    read_counted_strings, read_optional_string, read_string, read_u32, skip_optional_string,
    skip_string, starts_with_bytes, validated_counted_strings_end, write_bytes,
    write_optional_string, write_string, write_strings, write_u32};
use crate::name_set;
use crate::name_set::insert_name;
use crate::text;
use crate::text::same_text;

verus! {

pub const PACKAGE_JSON_MACHINE_HEADER_LEN: usize = 12;

pub const PACKAGE_JSON_OPTIONAL_PEER_DEPS_MACHINE_HEADER_LEN: usize = 12;

/// `RDXPKG01`.
pub open spec fn package_magic() -> Seq<u8> {
    seq![0x52u8, 0x44, 0x58, 0x50, 0x4b, 0x47, 0x30, 0x31]
}

/// `RDXOPD01`.
pub open spec fn peers_magic() -> Seq<u8> {
    seq![0x52u8, 0x44, 0x58, 0x4f, 0x50, 0x44, 0x30, 0x31]
}

pub fn package_json_machine_magic() -> (magic: [u8; 8])
    ensures
        magic@ == package_magic(),
{
    let magic: [u8; 8] = [0x52, 0x44, 0x58, 0x50, 0x4b, 0x47, 0x30, 0x31];
    assert(magic@ =~= package_magic());
    magic
}

pub fn package_json_optional_peer_deps_machine_magic() -> (magic: [u8; 8])
    ensures
        magic@ == peers_magic(),
{
    let magic: [u8; 8] = [0x52, 0x44, 0x58, 0x4f, 0x50, 0x44, 0x30, 0x31];
    assert(magic@ =~= peers_magic());
    magic
}

/// The `sideEffects` field.
#[derive(Debug, Clone, PartialEq, Eq)]
pub enum SideEffects {
    Bool(bool),
    String(String),
    Array(Vec<String>),
}

pub ghost enum SideEffectsModel {
    Bool(bool),
    Pattern(Seq<char>),
    Patterns(Seq<Seq<char>>),
}

impl View for SideEffects {
    type V = SideEffectsModel;

    open spec fn view(&self) -> SideEffectsModel {
        match self {
            SideEffects::Bool(value) => SideEffectsModel::Bool(*value),
            SideEffects::String(pattern) => SideEffectsModel::Pattern(pattern@),
            SideEffects::Array(patterns) => SideEffectsModel::Patterns(text::texts(patterns@)),
        }
    }
}

/// The package fields that the bundler reads. The package type is `commonjs` or `module`.
#[derive(Debug, Clone)]
pub struct PackageJson {
    name: Option<String>,
    version: Option<String>,
    package_type: Option<&'static str>,
    pub side_effects: Option<SideEffects>,
    realpath: String,
}

pub ghost struct PackageModel {
    pub name: Option<Seq<char>>,
    pub version: Option<Seq<char>>,
    pub package_type: Option<Seq<char>>,
    pub side_effects: Option<SideEffectsModel>,
    pub realpath: Seq<char>,
}

pub open spec fn opt_side_effects(value: Option<SideEffects>) -> Option<SideEffectsModel> {
    match value {
        Some(present) => Some(present@),
        None => None,
    }
}

pub open spec fn opt_str(value: Option<&str>) -> Option<Seq<char>> {
    match value {
        Some(present) => Some(present@),
        None => None,
    }
}

impl View for PackageJson {
    type V = PackageModel;

    closed spec fn view(&self) -> PackageModel {
        PackageModel {
            name: codec::opt_text(self.name),
            version: codec::opt_text(self.version),
            package_type: opt_str(self.package_type),
            side_effects: opt_side_effects(self.side_effects),
            realpath: self.realpath@,
        }
    }
}

/// A package type that a payload can name.
pub open spec fn is_known_type(package_type: Option<Seq<char>>) -> bool {
    package_type matches Some(name) ==> name == "commonjs"@ || name == "module"@
}

fn known_package_type(package_type: &Option<String>) -> (r: Option<Option<&'static str>>)
    ensures
        r is Some == is_known_type(codec::opt_text(*package_type)),
        r matches Some(name) ==> opt_str(name) == codec::opt_text(*package_type),
{
    match package_type {
        None => Some(None),
        Some(name) => if same_text(name.as_str(), "commonjs") {
            Some(Some("commonjs"))
        } else if same_text(name.as_str(), "module") {
            Some(Some("module"))
        } else {
            None
        },
    }
}

impl PackageJson {
    pub fn from_cache_parts(
        name: Option<String>,
        version: Option<String>,
        package_type: Option<String>,
        side_effects: Option<SideEffects>,
        realpath: String,
    ) -> (r: Option<Self>)
        ensures
            r is Some == is_known_type(codec::opt_text(package_type)),
            package_type is None ==> r is Some,
            package_type matches Some(known) ==> r is Some == (known@ == "commonjs"@ || known@
                == "module"@),
            r matches Some(package) ==> package@ == (PackageModel {
                name: codec::opt_text(name),
                version: codec::opt_text(version),
                package_type: codec::opt_text(package_type),
                side_effects: opt_side_effects(side_effects),
                realpath: realpath@,
            }),
    {
        let known: Option<&'static str> = known_package_type(&package_type)?;
        Some(PackageJson { name, version, package_type: known, side_effects, realpath })
    }

    /// The path of the `package.json` file itself.
    pub fn realpath(&self) -> (r: &str)
        ensures
            r@ == self@.realpath,
    {
        self.realpath.as_str()
    }

    pub fn name(&self) -> (r: Option<&str>)
        ensures
            opt_str(r) == self@.name,
    {
        match &self.name {
            Some(name) => Some(name.as_str()),
            None => None,
        }
    }

    pub fn version(&self) -> (r: Option<&str>)
        ensures
            opt_str(r) == self@.version,
    {
        match &self.version {
            Some(version) => Some(version.as_str()),
            None => None,
        }
    }

    pub fn package_type(&self) -> (r: Option<&str>)
        ensures
            opt_str(r) == self@.package_type,
    {
        self.package_type
    }

    /// The glob patterns that decide about side effects, in order.
    pub fn side_effect_patterns(&self) -> (patterns: Vec<String>)
        ensures
            text::texts(patterns@) == patterns_of(self@.side_effects),
    {
        match &self.side_effects {
            Some(SideEffects::String(pattern)) => {
                let mut patterns: Vec<String> = Vec::new();
                patterns.push(pattern.clone());
                assert(text::texts(patterns@) =~= seq![pattern@]);
                patterns
            },
            Some(SideEffects::Array(patterns)) => {
                let mut copies: Vec<String> = Vec::new();
                let mut i: usize = 0;
                while i < patterns.len()
                    invariant
                        i <= patterns.len(),
                        copies.len() == i,
                        forall|j: int| 0 <= j < i ==> #[trigger] copies@[j]@ == patterns@[j]@,
                    decreases patterns.len() - i,
                {
                    copies.push(patterns[i].clone());
                    i = i + 1;
                }
                assert(text::texts(copies@) =~= text::texts(patterns@));
                copies
            },
            _ => {
                let patterns: Vec<String> = Vec::new();
                assert(text::texts(patterns@) =~= Seq::empty());
                patterns
            },
        }
    }

    /// Whether a module may have side effects, given for each pattern whether it matches the
    /// module's path below the package.
    pub fn check_side_effects_for(&self, matched: &Vec<bool>) -> (r: Option<bool>)
        requires
            matched.len() == patterns_of(self@.side_effects).len(),
        ensures
            r == side_effects_verdict(self@.side_effects, matched@),
            self@.side_effects is None <==> r is None,
            self@.side_effects matches Some(SideEffectsModel::Bool(flag)) ==> r == Some(flag),
            self@.side_effects matches Some(SideEffectsModel::Pattern(_)) ==> r == Some(
                exists|i: int| 0 <= i < matched@.len() && #[trigger] matched@[i],
            ),
            self@.side_effects matches Some(SideEffectsModel::Patterns(_)) ==> r == Some(
                exists|i: int| 0 <= i < matched@.len() && #[trigger] matched@[i],
            ),
    {
        proof {
            lemma_side_effects_verdict(self@.side_effects, matched@);
        }
        match &self.side_effects {
            None => None,
            Some(SideEffects::Bool(value)) => Some(*value),
            Some(SideEffects::String(_)) => Some(matched[0]),
            Some(SideEffects::Array(_)) => Some(any_true(matched)),
        }
    }
}

fn any_true(flags: &Vec<bool>) -> (r: bool)
    ensures
        r == flags@.contains(true),
{
    let mut i: usize = 0;
    while i < flags.len()
        invariant
            i <= flags.len(),
            forall|j: int| 0 <= j < i ==> !#[trigger] flags@[j],
        decreases flags.len() - i,
    {
        if flags[i] {
            return true;
        }
        i = i + 1;
    }
    false
}

pub open spec fn patterns_of(side_effects: Option<SideEffectsModel>) -> Seq<Seq<char>> {
    match side_effects {
        Some(SideEffectsModel::Pattern(pattern)) => seq![pattern],
        Some(SideEffectsModel::Patterns(patterns)) => patterns,
        _ => Seq::empty(),
    }
}

/// A flag decides by itself; patterns decide by whether any of them matches.
pub open spec fn side_effects_verdict(
    side_effects: Option<SideEffectsModel>,
    matched: Seq<bool>,
) -> Option<bool> {
    match side_effects {
        None => None,
        Some(SideEffectsModel::Bool(value)) => Some(value),
        Some(SideEffectsModel::Pattern(_)) => Some(matched[0]),
        Some(SideEffectsModel::Patterns(_)) => Some(matched.contains(true)),
    }
}

/// A package says nothing about side effects exactly where it lacks the field. A flag is the answer
/// itself, whatever matches. With patterns, a module has side effects exactly where one of them
/// matches it.
pub proof fn lemma_side_effects_verdict(side_effects: Option<SideEffectsModel>, matched: Seq<bool>)
    requires
        matched.len() == patterns_of(side_effects).len(),
    ensures
        side_effects is None <==> side_effects_verdict(side_effects, matched) is None,
        side_effects matches Some(SideEffectsModel::Bool(flag)) ==> side_effects_verdict(
            side_effects,
            matched,
        ) == Some(flag),
        side_effects is Some && side_effects->0 !is Bool ==> side_effects_verdict(
            side_effects,
            matched,
        ) == Some(exists|i: int| 0 <= i < matched.len() && #[trigger] matched[i]),
{
    if side_effects is Some && side_effects->0 is Pattern {
        assert(matched.len() == 1);
        if exists|i: int| 0 <= i < matched.len() && #[trigger] matched[i] {
            let i = choose|i: int| 0 <= i < matched.len() && #[trigger] matched[i];
            assert(i == 0);
        }
        assert(matched[0] ==> exists|i: int| 0 <= i < matched.len() && #[trigger] matched[i]);
    }
    if matched.contains(true) {
        let i = choose|i: int| 0 <= i < matched.len() && matched[i] == true;
        assert(matched[i]);
    }
}

/// A flag has no patterns, one pattern is the same as a list of it, and a list is read as it stands.
pub proof fn lemma_patterns_of(side_effects: SideEffectsModel)
    ensures
        side_effects is Bool ==> patterns_of(Some(side_effects)).len() == 0,
        patterns_of(None).len() == 0,
        side_effects matches SideEffectsModel::Pattern(pattern) ==> patterns_of(Some(side_effects))
            == seq![pattern] && patterns_of(Some(side_effects)) == patterns_of(
            Some(SideEffectsModel::Patterns(seq![pattern])),
        ),
        side_effects matches SideEffectsModel::Patterns(patterns) ==> patterns_of(
            Some(side_effects),
        ) == patterns,
{
}

// ---------------------------------------------------------------------------------------------
// The package payload

pub open spec fn type_tag(package_type: Option<Seq<char>>) -> Option<u8> {
    match package_type {
        None => Some(0),
        Some(name) => if name == "commonjs"@ {
            Some(1)
        } else if name == "module"@ {
            Some(2)
        } else {
            None
        },
    }
}

pub open spec fn type_of_tag(tag: u8) -> Option<Option<Seq<char>>> {
    if tag == 0 {
        Some(None)
    } else if tag == 1 {
        Some(Some("commonjs"@))
    } else if tag == 2 {
        Some(Some("module"@))
    } else {
        None
    }
}

pub open spec fn effects_tag(side_effects: Option<SideEffectsModel>) -> u8 {
    match side_effects {
        None => 0,
        Some(SideEffectsModel::Bool(value)) => if value {
            2
        } else {
            1
        },
        Some(SideEffectsModel::Pattern(_)) => 3,
        Some(SideEffectsModel::Patterns(_)) => 4,
    }
}

pub fn package_type_tag(package_type: Option<&str>) -> (tag: Option<u8>)
    ensures
        tag == type_tag(opt_str(package_type)),
        package_type is None ==> tag == Some(0u8),
        package_type matches Some(name) ==> {
            &&& tag == Some(1u8) <==> name@ == "commonjs"@
            &&& tag == Some(2u8) <==> name@ == "module"@
            &&& tag is None <==> name@ != "commonjs"@ && name@ != "module"@
        },
{
    proof {
        reveal_strlit("commonjs");
        reveal_strlit("module");
        assert("commonjs"@.len() != "module"@.len());
    }
    match package_type {
        None => Some(0),
        Some(name) => if same_text(name, "commonjs") {
            Some(1)
        } else if same_text(name, "module") {
            Some(2)
        } else {
            None
        },
    }
}

pub fn package_type_from_machine_tag(tag: u8) -> (r: Option<Option<&'static str>>)
    ensures
        r is Some == (type_of_tag(tag) is Some),
        r matches Some(name) ==> type_of_tag(tag) == Some(opt_str(name)),
        r is Some == (tag <= 2),
        tag == 0 ==> (r matches Some(name) && name is None),
        tag == 1 ==> (r matches Some(Some(name)) && name@ == "commonjs"@),
        tag == 2 ==> (r matches Some(Some(name)) && name@ == "module"@),
{
    match tag {
        0 => Some(None),
        1 => Some(Some("commonjs")),
        2 => Some(Some("module")),
        _ => None,
    }
}

pub fn is_package_json_machine_side_effects_tag(tag: u8) -> (r: bool)
    ensures
        r == (tag <= 4),
{
    tag <= 4
}

pub fn side_effects_tag(side_effects: &Option<SideEffects>) -> (tag: u8)
    ensures
        tag == effects_tag(opt_side_effects(*side_effects)),
        tag == 0 <==> *side_effects is None,
        tag == 1 <==> *side_effects == Some(SideEffects::Bool(false)),
        tag == 2 <==> *side_effects == Some(SideEffects::Bool(true)),
        tag == 3 <==> *side_effects is Some && (*side_effects)->0 is String,
        tag == 4 <==> *side_effects is Some && (*side_effects)->0 is Array,
{
    match side_effects {
        None => 0,
        Some(SideEffects::Bool(value)) => if *value {
            2
        } else {
            1
        },
        Some(SideEffects::String(_)) => 3,
        Some(SideEffects::Array(_)) => 4,
    }
}

pub open spec fn encoded_side_effects(side_effects: Option<SideEffectsModel>) -> Seq<u8> {
    match side_effects {
        Some(SideEffectsModel::Pattern(pattern)) => codec::encoded_text(pattern),
        Some(SideEffectsModel::Patterns(patterns)) => codec::le32(patterns.len())
            + codec::encoded_texts(patterns),
        _ => Seq::empty(),
    }
}

/// Whether a package has a payload.
pub open spec fn is_encodable_package(package: PackageModel) -> bool {
    type_tag(package.package_type) is Some && package_texts_fit(package)
}

/// Whether every text and count of a package fits the payload.
pub open spec fn package_texts_fit(package: PackageModel) -> bool {
    &&& package.name matches Some(name) ==> codec::is_encodable(name)
    &&& package.version matches Some(version) ==> codec::is_encodable(version)
    &&& match package.side_effects {
        Some(SideEffectsModel::Pattern(pattern)) => codec::is_encodable(pattern),
        Some(SideEffectsModel::Patterns(patterns)) => patterns.len() <= u32::MAX
            && codec::all_encodable(patterns),
        _ => true,
    }
}

/// Magic, type tag, side-effects tag, two zero bytes, name, version, side effects.
pub open spec fn encoded_package(package: PackageModel) -> Seq<u8> {
    package_magic() + (seq![
        type_tag(package.package_type)->0,
        effects_tag(package.side_effects),
        0u8,
        0u8,
    ] + (codec::encoded_optional_text(package.name) + (codec::encoded_optional_text(
        package.version,
    ) + encoded_side_effects(package.side_effects))))
}

/// The side effects with tag `tag` that take up all of `rest`.
pub open spec fn side_effects_at(rest: Seq<u8>, tag: u8) -> Option<Option<SideEffectsModel>> {
    if tag == 0 || tag == 1 || tag == 2 {
        if rest.len() != 0 {
            None
        } else if tag == 0 {
            Some(None)
        } else {
            Some(Some(SideEffectsModel::Bool(tag == 2)))
        }
    } else if tag == 3 {
        match codec::text_at(rest) {
            Some((pattern, after)) => if after.len() == 0 {
                Some(Some(SideEffectsModel::Pattern(pattern)))
            } else {
                None
            },
            None => None,
        }
    } else if tag == 4 {
        match codec::u32_at(rest) {
            None => None,
            Some((count, items)) => match codec::texts_at(items, count) {
                Some((patterns, after)) => if after.len() == 0 {
                    Some(Some(SideEffectsModel::Patterns(patterns)))
                } else {
                    None
                },
                None => None,
            },
        }
    } else {
        None
    }
}

/// What a payload holds; the path is not part of it.
pub open spec fn decoded_package(bytes: Seq<u8>, realpath: Seq<char>) -> Option<PackageModel> {
    if bytes.len() < PACKAGE_JSON_MACHINE_HEADER_LEN || !package_magic().is_prefix_of(bytes)
        || bytes[10] != 0 || bytes[11] != 0 {
        None
    } else {
        match type_of_tag(bytes[8]) {
            None => None,
            Some(package_type) => match codec::optional_text_at(bytes.skip(12)) {
                None => None,
                Some((name, at_version)) => match codec::optional_text_at(at_version) {
                    None => None,
                    Some((version, at_effects)) => match side_effects_at(at_effects, bytes[9]) {
                        None => None,
                        Some(side_effects) => Some(
                            PackageModel { name, version, package_type, side_effects, realpath },
                        ),
                    },
                },
            },
        }
    }
}

pub open spec fn package_payload_fits(package: PackageModel) -> bool {
    is_encodable_package(package) && encoded_package(package).len() <= usize::MAX
}

/// The exact size of a payload, where its texts fit.
pub fn package_json_machine_payload_capacity(package_json: &PackageJson) -> (r: Option<usize>)
    ensures
        r is Some == (package_texts_fit(package_json@) && encoded_package(package_json@).len()
            <= usize::MAX),
        r matches Some(len) ==> len == encoded_package(package_json@).len(),
{
    let name_len: usize = encoded_optional_string_len(&package_json.name)?;
    let version_len: usize = encoded_optional_string_len(&package_json.version)?;
    let effects_len: usize = match &package_json.side_effects {
        Some(SideEffects::String(pattern)) => encoded_string_len(pattern.as_str())?,
        Some(SideEffects::Array(patterns)) => {
            if patterns.len() as u64 > u32::MAX as u64 {
                return None;
            }
            encoded_strings_len(patterns)?.checked_add(4)?
        },
        _ => 0,
    };
    PACKAGE_JSON_MACHINE_HEADER_LEN.checked_add(name_len)?.checked_add(version_len)?.checked_add(
        effects_len,
    )
}

pub fn encode_package_json_machine_payload(package_json: &PackageJson) -> (r: Option<Vec<u8>>)
    ensures
        r is Some == package_payload_fits(package_json@),
        r matches Some(bytes) ==> bytes@ == encoded_package(package_json@),
{
    let capacity: usize = package_json_machine_payload_capacity(package_json)?;
    let tag: u8 = package_type_tag(package_json.package_type)?;
    let mut bytes: Vec<u8> = Vec::with_capacity(capacity);
    let magic: [u8; 8] = package_json_machine_magic();
    write_bytes(&mut bytes, magic.as_slice());
    bytes.push(tag);
    bytes.push(side_effects_tag(&package_json.side_effects));
    bytes.push(0);
    bytes.push(0);
    write_optional_string(&mut bytes, &package_json.name);
    write_optional_string(&mut bytes, &package_json.version);
    match &package_json.side_effects {
        Some(SideEffects::String(pattern)) => {
            write_string(&mut bytes, pattern.as_str());
        },
        Some(SideEffects::Array(patterns)) => {
            write_u32(&mut bytes, patterns.len() as u32);
            write_strings(&mut bytes, patterns);
        },
        _ => {},
    }
    assert(bytes@ =~= encoded_package(package_json@));
    Some(bytes)
}

/// Whether the fields behind the header are complete and end with the payload.
pub open spec fn package_layout_holds(bytes: Seq<u8>, tag: u8) -> bool {
    bytes.len() >= PACKAGE_JSON_MACHINE_HEADER_LEN && match codec::optional_text_at(bytes.skip(12)) {
        None => false,
        Some((name, at_version)) => match codec::optional_text_at(at_version) {
            None => false,
            Some((version, at_effects)) => side_effects_at(at_effects, tag) is Some,
        },
    }
}

pub fn package_json_machine_payload_layout_is_valid(machine_bytes: &[u8], side_effects_tag: u8) -> (r:
    bool)
    ensures
        r == package_layout_holds(machine_bytes@, side_effects_tag),
{
    if machine_bytes.len() < PACKAGE_JSON_MACHINE_HEADER_LEN {
        return false;
    }
    let mut cursor: usize = PACKAGE_JSON_MACHINE_HEADER_LEN;
    if skip_optional_string(machine_bytes, &mut cursor).is_none() {
        return false;
    }
    if skip_optional_string(machine_bytes, &mut cursor).is_none() {
        return false;
    }
    match side_effects_tag {
        0 | 1 | 2 => cursor == machine_bytes.len(),
        3 => skip_string(machine_bytes, &mut cursor).is_some() && cursor == machine_bytes.len(),
        4 => {
            let count: u32 = match read_u32(machine_bytes, &mut cursor) {
                Some(count) => count,
                None => {
                    return false;
                },
            };
            match validated_counted_strings_end(machine_bytes, cursor, count as usize) {
                Some(end) => end == machine_bytes.len(),
                None => false,
            }
        },
        _ => false,
    }
}

pub fn decode_package_json_machine_payload(machine_bytes: &[u8], realpath: String) -> (r: Option<
    PackageJson,
>)
    ensures
        r is Some == (decoded_package(machine_bytes@, realpath@) is Some),
        r matches Some(package) ==> decoded_package(machine_bytes@, realpath@) == Some(package@),
{
    if machine_bytes.len() < PACKAGE_JSON_MACHINE_HEADER_LEN {
        return None;
    }
    let magic: [u8; 8] = package_json_machine_magic();
    if !starts_with_bytes(machine_bytes, magic.as_slice()) {
        return None;
    }
    if machine_bytes[10] != 0 || machine_bytes[11] != 0 {
        return None;
    }
    let package_type: Option<&'static str> = package_type_from_machine_tag(machine_bytes[8])?;
    let tag: u8 = machine_bytes[9];
    if !is_package_json_machine_side_effects_tag(tag) {
        return None;
    }
    if !package_json_machine_payload_layout_is_valid(machine_bytes, tag) {
        return None;
    }
    let mut cursor: usize = PACKAGE_JSON_MACHINE_HEADER_LEN;
    let name: Option<String> = read_optional_string(machine_bytes, &mut cursor)?;
    let version: Option<String> = read_optional_string(machine_bytes, &mut cursor)?;
    let side_effects: Option<SideEffects> = match tag {
        0 => None,
        1 => Some(SideEffects::Bool(false)),
        2 => Some(SideEffects::Bool(true)),
        3 => Some(SideEffects::String(read_string(machine_bytes, &mut cursor)?)),
        _ => {
            let count: u32 = read_u32(machine_bytes, &mut cursor)?;
            Some(
                SideEffects::Array(
                    read_counted_strings(machine_bytes, &mut cursor, count as usize)?,
                ),
            )
        },
    };
    if cursor != machine_bytes.len() {
        return None;
    }
    Some(PackageJson { name, version, package_type, side_effects, realpath })
}

/// Decoding gives back the package that was encoded, under the path that the decoder is given.
pub proof fn lemma_package_round_trip(package: PackageModel, realpath: Seq<char>)
    requires
        is_encodable_package(package),
    ensures
        decoded_package(encoded_package(package), realpath) == Some(
            PackageModel { realpath, ..package },
        ),
{
    let effects = encoded_side_effects(package.side_effects);
    let version_on = codec::encoded_optional_text(package.version) + effects;
    let name_on = codec::encoded_optional_text(package.name) + version_on;
    let bytes = encoded_package(package);
    assert(bytes.skip(12) =~= name_on);
    assert(bytes.subrange(0, 8) =~= package_magic());
    assert(name_on.len() >= 4) by {
        assert(codec::encoded_optional_text(package.name).len() >= 4);
    }
    codec::lemma_optional_text_round_trip(package.name, version_on);
    codec::lemma_optional_text_round_trip(package.version, effects);
    match package.side_effects {
        Some(SideEffectsModel::Pattern(pattern)) => {
            assert(effects + Seq::<u8>::empty() =~= effects);
            codec::lemma_text_round_trip(pattern, Seq::empty());
        },
        Some(SideEffectsModel::Patterns(patterns)) => {
            codec::lemma_u32_round_trip(patterns.len(), codec::encoded_texts(patterns));
            assert(codec::encoded_texts(patterns) + Seq::<u8>::empty() =~= codec::encoded_texts(
                patterns,
            ));
            codec::lemma_texts_round_trip(patterns, Seq::empty());
        },
        _ => {},
    }
}

/// Side effects that are read stand there as they are written.
proof fn lemma_side_effects_read_is_written(rest: Seq<u8>, tag: u8)
    requires
        side_effects_at(rest, tag) is Some,
    ensures
        ({
            let side_effects = side_effects_at(rest, tag)->0;
            &&& effects_tag(side_effects) == tag
            &&& encoded_side_effects(side_effects) == rest
            &&& match side_effects {
                Some(SideEffectsModel::Pattern(pattern)) => codec::is_encodable(pattern),
                Some(SideEffectsModel::Patterns(patterns)) => patterns.len() <= u32::MAX
                    && codec::all_encodable(patterns),
                _ => true,
            }
        }),
{
    if tag == 3 {
        codec::lemma_text_read_is_written(rest);
        let (pattern, after) = codec::text_at(rest)->0;
        assert(codec::encoded_text(pattern) + after =~= codec::encoded_text(pattern));
    } else if tag == 4 {
        codec::lemma_u32_read_is_written(rest);
        let (count, items) = codec::u32_at(rest)->0;
        codec::lemma_texts_read_is_written(items, count);
        let (patterns, after) = codec::texts_at(items, count)->0;
        assert(codec::encoded_texts(patterns) + after =~= codec::encoded_texts(patterns));
    } else {
        assert(rest =~= Seq::empty());
    }
}

/// A payload that decodes is the one encoding of the package that comes of it.
#[verifier::spinoff_prover]
#[verifier::rlimit(40)]
pub proof fn lemma_decoded_package_encodes_back(bytes: Seq<u8>, realpath: Seq<char>)
    requires
        decoded_package(bytes, realpath) is Some,
        bytes.len() <= usize::MAX,
    ensures
        package_payload_fits(decoded_package(bytes, realpath)->0),
        encoded_package(decoded_package(bytes, realpath)->0) == bytes,
{
    let package = decoded_package(bytes, realpath)->0;
    let at_name = bytes.skip(12);
    let (name, at_version) = codec::optional_text_at(at_name)->0;
    let (version, at_effects) = codec::optional_text_at(at_version)->0;
    let tail = codec::encoded_optional_text(package.name) + (codec::encoded_optional_text(
        package.version,
    ) + encoded_side_effects(package.side_effects));
    assert(tail == at_name && package_texts_fit(package) && effects_tag(package.side_effects)
        == bytes[9]) by {
        codec::lemma_optional_text_read_is_written(at_name);
        codec::lemma_optional_text_read_is_written(at_version);
        lemma_side_effects_read_is_written(at_effects, bytes[9]);
    }
    assert(type_tag(package.package_type) == Some(bytes[8])) by {
        reveal_strlit("commonjs");
        reveal_strlit("module");
        assert("commonjs"@.len() != "module"@.len());
    }
    let tags = seq![bytes[8], bytes[9], 0u8, 0u8];
    assert(tags =~= bytes.subrange(8, 12));
    assert(package_magic() == bytes.subrange(0, 8));
    assert(bytes.subrange(0, 8) + (bytes.subrange(8, 12) + at_name) =~= bytes);
}

// ---------------------------------------------------------------------------------------------
// Optional peer dependencies

/// A package name and its optional peer dependencies, in ascending order.
#[derive(Debug, Clone, PartialEq, Eq)]
pub struct PackageJsonOptionalPeerDependencies {
    pub name: String,
    pub optional_peer_dependencies: Vec<String>,
}

pub ghost struct PeersModel {
    pub name: Seq<char>,
    pub optional: Set<Seq<char>>,
}

impl View for PackageJsonOptionalPeerDependencies {
    type V = PeersModel;

    open spec fn view(&self) -> PeersModel {
        PeersModel {
            name: self.name@,
            optional: text::texts(self.optional_peer_dependencies@).to_set(),
        }
    }
}

impl Default for PackageJsonOptionalPeerDependencies {
    fn default() -> (r: Self)
        ensures
            r.well_formed(),
            r@.name == Seq::<char>::empty(),
            r@.optional == Set::<Seq<char>>::empty(),
    {
        let r = PackageJsonOptionalPeerDependencies {
            name: String::new(),
            optional_peer_dependencies: Vec::new(),
        };
        assert(r@.optional =~= Set::<Seq<char>>::empty());
        r
    }
}

impl PackageJsonOptionalPeerDependencies {
    /// The dependencies in order.
    pub open spec fn listed(&self) -> Seq<Seq<char>> {
        text::texts(self.optional_peer_dependencies@)
    }

    pub open spec fn well_formed(&self) -> bool {
        name_set::is_ascending(self.listed())
    }
}

pub open spec fn is_encodable_peers(name: Seq<char>, listed: Seq<Seq<char>>) -> bool {
    codec::is_encodable(name) && listed.len() <= u32::MAX && codec::all_encodable(listed)
}

/// Magic, four zero bytes, name, count, dependencies.
pub open spec fn encoded_peers(name: Seq<char>, listed: Seq<Seq<char>>) -> Seq<u8> {
    peers_magic() + (seq![0u8, 0u8, 0u8, 0u8] + (codec::encoded_text(name) + (codec::le32(
        listed.len(),
    ) + codec::encoded_texts(listed))))
}

pub open spec fn peers_payload_fits(name: Seq<char>, listed: Seq<Seq<char>>) -> bool {
    is_encodable_peers(name, listed) && encoded_peers(name, listed).len() <= usize::MAX
}

/// The name and the list that a payload holds, in the order in which they stand there.
pub open spec fn decoded_peers(bytes: Seq<u8>) -> Option<(Seq<char>, Seq<Seq<char>>)> {
    if bytes.len() < PACKAGE_JSON_OPTIONAL_PEER_DEPS_MACHINE_HEADER_LEN
        || !peers_magic().is_prefix_of(bytes) || bytes[8] != 0 || bytes[9] != 0 || bytes[10] != 0
        || bytes[11] != 0 {
        None
    } else {
        match codec::text_at(bytes.skip(12)) {
            None => None,
            Some((name, at_count)) => match codec::u32_at(at_count) {
                None => None,
                Some((count, at_items)) => match codec::texts_at(at_items, count) {
                    None => None,
                    Some((listed, after)) => if after.len() == 0 {
                        Some((name, listed))
                    } else {
                        None
                    },
                },
            },
        }
    }
}

/// The exact size of a payload, where the dependencies have one.
pub fn package_json_optional_peer_dependencies_machine_payload_capacity(
    package_json: &PackageJsonOptionalPeerDependencies,
) -> (r: Option<usize>)
    ensures
        r is Some == peers_payload_fits(package_json.name@, package_json.listed()),
        r matches Some(len) ==> len == encoded_peers(
            package_json.name@,
            package_json.listed(),
        ).len(),
{
    let name_len: usize = encoded_string_len(package_json.name.as_str())?;
    if package_json.optional_peer_dependencies.len() as u64 > u32::MAX as u64 {
        return None;
    }
    let items_len: usize = encoded_strings_len(&package_json.optional_peer_dependencies)?;
    PACKAGE_JSON_OPTIONAL_PEER_DEPS_MACHINE_HEADER_LEN.checked_add(name_len)?.checked_add(
        4,
    )?.checked_add(items_len)
}

pub fn encode_package_json_optional_peer_dependencies_machine_payload(
    package_json: &PackageJsonOptionalPeerDependencies,
) -> (r: Option<Vec<u8>>)
    ensures
        r is Some == peers_payload_fits(package_json.name@, package_json.listed()),
        r matches Some(bytes) ==> bytes@ == encoded_peers(
            package_json.name@,
            package_json.listed(),
        ),
{
    let capacity: usize = package_json_optional_peer_dependencies_machine_payload_capacity(
        package_json,
    )?;
    let mut bytes: Vec<u8> = Vec::with_capacity(capacity);
    let magic: [u8; 8] = package_json_optional_peer_deps_machine_magic();
    write_bytes(&mut bytes, magic.as_slice());
    bytes.push(0);
    bytes.push(0);
    bytes.push(0);
    bytes.push(0);
    write_string(&mut bytes, package_json.name.as_str());
    write_u32(&mut bytes, package_json.optional_peer_dependencies.len() as u32);
    write_strings(&mut bytes, &package_json.optional_peer_dependencies);
    assert(bytes@ =~= encoded_peers(package_json.name@, package_json.listed()));
    Some(bytes)
}

/// The set of the listed names.
pub fn name_set_of(listed: Vec<String>) -> (names: Vec<String>)
    ensures
        name_set::is_ascending(text::texts(names@)),
        text::texts(names@).to_set() == text::texts(listed@).to_set(),
{
    let mut names: Vec<String> = Vec::new();
    let mut i: usize = 0;
    assert(text::texts(names@).to_set() =~= text::texts(listed@).take(0).to_set());
    while i < listed.len()
        invariant
            i <= listed.len(),
            name_set::is_ascending(text::texts(names@)),
            text::texts(names@).to_set() == text::texts(listed@).take(i as int).to_set(),
        decreases listed.len() - i,
    {
        insert_name(&mut names, listed[i].clone());
        proof {
            let all = text::texts(listed@);
            assert(all.take(i + 1) =~= all.take(i as int).push(all[i as int]));
            lemma_push_to_set(all.take(i as int), all[i as int]);
        }
        i = i + 1;
    }
    assert(text::texts(listed@).take(i as int) =~= text::texts(listed@));
    names
}

proof fn lemma_push_to_set(names: Seq<Seq<char>>, name: Seq<char>)
    ensures
        names.push(name).to_set() == names.to_set().insert(name),
{
    names.lemma_push_to_set_commute(name);
}

pub fn decode_package_json_optional_peer_dependencies_machine_payload(machine_bytes: &[u8]) -> (r:
    Option<PackageJsonOptionalPeerDependencies>)
    ensures
        r is Some == (decoded_peers(machine_bytes@) is Some),
        r matches Some(peers) ==> peers.well_formed() && peers@ == (PeersModel {
            name: (decoded_peers(machine_bytes@)->0).0,
            optional: (decoded_peers(machine_bytes@)->0).1.to_set(),
        }),
{
    if machine_bytes.len() < PACKAGE_JSON_OPTIONAL_PEER_DEPS_MACHINE_HEADER_LEN {
        return None;
    }
    let magic: [u8; 8] = package_json_optional_peer_deps_machine_magic();
    if !starts_with_bytes(machine_bytes, magic.as_slice()) {
        return None;
    }
    if machine_bytes[8] != 0 || machine_bytes[9] != 0 || machine_bytes[10] != 0
        || machine_bytes[11] != 0 {
        return None;
    }
    let mut cursor: usize = PACKAGE_JSON_OPTIONAL_PEER_DEPS_MACHINE_HEADER_LEN;
    let mut validation_cursor: usize = cursor;
    skip_string(machine_bytes, &mut validation_cursor)?;
    let count: u32 = read_u32(machine_bytes, &mut validation_cursor)?;
    let end: usize = validated_counted_strings_end(
        machine_bytes,
        validation_cursor,
        count as usize,
    )?;
    if end != machine_bytes.len() {
        return None;
    }
    let name: String = read_string(machine_bytes, &mut cursor)?;
    let listed: Vec<String> = read_counted_strings(
        machine_bytes,
        &mut validation_cursor,
        count as usize,
    )?;
    Some(
        PackageJsonOptionalPeerDependencies {
            name,
            optional_peer_dependencies: name_set_of(listed),
        },
    )
}

/// Decoding gives back the name and the list that were encoded.
pub proof fn lemma_peers_round_trip(name: Seq<char>, listed: Seq<Seq<char>>)
    requires
        is_encodable_peers(name, listed),
    ensures
        decoded_peers(encoded_peers(name, listed)) == Some((name, listed)),
{
    let items = codec::encoded_texts(listed);
    let count_on = codec::le32(listed.len()) + items;
    let name_on = codec::encoded_text(name) + count_on;
    let bytes = encoded_peers(name, listed);
    assert(bytes.skip(12) =~= name_on);
    assert(bytes.subrange(0, 8) =~= peers_magic());
    codec::lemma_text_round_trip(name, count_on);
    codec::lemma_u32_round_trip(listed.len(), items);
    assert(items + Seq::<u8>::empty() =~= items);
    codec::lemma_texts_round_trip(listed, Seq::empty());
}

/// The payload depends on the set alone: two well-formed values with one name and one set have
/// one payload.
pub proof fn lemma_peers_payload_is_stable(
    left: PackageJsonOptionalPeerDependencies,
    right: PackageJsonOptionalPeerDependencies,
)
    requires
        left.well_formed(),
        right.well_formed(),
        left@ == right@,
    ensures
        encoded_peers(left.name@, left.listed()) == encoded_peers(right.name@, right.listed()),
{
    name_set::lemma_ascending_list_is_unique(left.listed(), right.listed());
}

/// What a JSON parser finds of the peer dependencies in a `package.json`.
#[derive(Debug, Clone, PartialEq, Eq)]
pub struct PackageJsonWithPeerDependenciesRaw {
    pub name: String,
    pub peer_dependencies: Option<Vec<String>>,
    pub peer_dependencies_meta: Option<Vec<(String, bool)>>,
}

/// The peer dependencies that some metadata entry marks as optional.
pub open spec fn optional_peers(
    dependencies: Seq<Seq<char>>,
    meta: Seq<(Seq<char>, bool)>,
) -> Set<Seq<char>> {
    Set::new(|name: Seq<char>| dependencies.contains(name) && meta.contains((name, true)))
}

pub open spec fn meta_model(meta: Seq<(String, bool)>) -> Seq<(Seq<char>, bool)> {
    meta.map_values(|entry: (String, bool)| (entry.0@, entry.1))
}

pub open spec fn raw_peers(raw: Option<PackageJsonWithPeerDependenciesRaw>) -> PeersModel {
    match raw {
        None => PeersModel { name: Seq::empty(), optional: Set::empty() },
        Some(package) => PeersModel {
            name: package.name@,
            optional: match (package.peer_dependencies, package.peer_dependencies_meta) {
                (Some(dependencies), Some(meta)) => optional_peers(
                    text::texts(dependencies@),
                    meta_model(meta@),
                ),
                _ => Set::empty(),
            },
        },
    }
}

fn is_marked_optional(meta: &Vec<(String, bool)>, name: &str) -> (r: bool)
    ensures
        r == meta_model(meta@).contains((name@, true)),
{
    let mut i: usize = 0;
    while i < meta.len()
        invariant
            i <= meta.len(),
            forall|j: int| 0 <= j < i ==> #[trigger] meta_model(meta@)[j] != (name@, true),
        decreases meta.len() - i,
    {
        assert(meta_model(meta@)[i as int] == (meta@[i as int].0@, meta@[i as int].1));
        if meta[i].1 && same_text(meta[i].0.as_str(), name) {
            return true;
        }
        i = i + 1;
    }
    false
}

pub fn optional_peer_dependencies_from_maps(
    peer_dependencies: Vec<String>,
    peer_dependencies_meta: &Vec<(String, bool)>,
) -> (names: Vec<String>)
    ensures
        name_set::is_ascending(text::texts(names@)),
        text::texts(names@).to_set() == optional_peers(
            text::texts(peer_dependencies@),
            meta_model(peer_dependencies_meta@),
        ),
        forall|name: Seq<char>| #[trigger]
            text::texts(names@).contains(name) <==> text::texts(peer_dependencies@).contains(name)
                && exists|k: int|
                0 <= k < peer_dependencies_meta@.len() && (#[trigger] peer_dependencies_meta@[k]).0@
                    == name && peer_dependencies_meta@[k].1,
{
    let mut names: Vec<String> = Vec::new();
    let mut i: usize = 0;
    let ghost all = text::texts(peer_dependencies@);
    let ghost meta = meta_model(peer_dependencies_meta@);
    assert(text::texts(names@).to_set() =~= optional_peers(all.take(0), meta));
    while i < peer_dependencies.len()
        invariant
            i <= peer_dependencies.len(),
            all == text::texts(peer_dependencies@),
            meta == meta_model(peer_dependencies_meta@),
            name_set::is_ascending(text::texts(names@)),
            text::texts(names@).to_set() == optional_peers(all.take(i as int), meta),
        decreases peer_dependencies.len() - i,
    {
        let ghost before = text::texts(names@).to_set();
        let ghost name = all[i as int];
        proof {
            assert(all.take(i + 1) =~= all.take(i as int).push(name));
            let next = all.take(i + 1);
            let done = all.take(i as int);
            assert forall|x: Seq<char>| next.contains(x) == (done.contains(x) || x == name) by {
                if done.contains(x) {
                    let k = choose|k: int| 0 <= k < done.len() && done[k] == x;
                    assert(next[k] == x);
                }
                if x == name {
                    assert(next[i as int] == x);
                }
                if next.contains(x) && x != name {
                    let k = choose|k: int| 0 <= k < next.len() && next[k] == x;
                    assert(done[k] == x);
                }
            }
        }
        if is_marked_optional(peer_dependencies_meta, peer_dependencies[i].as_str()) {
            insert_name(&mut names, peer_dependencies[i].clone());
            assert(text::texts(names@).to_set() =~= optional_peers(all.take(i + 1), meta));
        } else {
            assert(text::texts(names@).to_set() =~= optional_peers(all.take(i + 1), meta));
        }
        i = i + 1;
    }
    assert(all.take(i as int) =~= all);
    proof {
        assert forall|name: Seq<char>| #[trigger] text::texts(names@).contains(name) <==> all.contains(
            name,
        ) && exists|k: int|
            0 <= k < peer_dependencies_meta@.len() && (#[trigger] peer_dependencies_meta@[k]).0@
                == name && peer_dependencies_meta@[k].1 by {
            assert(text::texts(names@).contains(name) == text::texts(names@).to_set().contains(
                name,
            ));
            if meta.contains((name, true)) {
                let k = choose|k: int| 0 <= k < meta.len() && meta[k] == (name, true);
                assert(peer_dependencies_meta@[k].0@ == name && peer_dependencies_meta@[k].1);
            }
            if exists|k: int|
                0 <= k < peer_dependencies_meta@.len() && (#[trigger] peer_dependencies_meta@[k]).0@
                    == name && peer_dependencies_meta@[k].1 {
                let k = choose|k: int|
                    0 <= k < peer_dependencies_meta@.len() && (
                    #[trigger] peer_dependencies_meta@[k]).0@ == name
                        && peer_dependencies_meta@[k].1;
                assert(meta[k] == (name, true));
            }
        }
    }
    names
}

/// The optional peer dependencies of a package; a package that could not be parsed has none.
pub fn parse_package_json_optional_peer_dependencies(
    raw: Option<PackageJsonWithPeerDependenciesRaw>,
) -> (peers: PackageJsonOptionalPeerDependencies)
    ensures
        peers.well_formed(),
        peers@.name == raw_peers(raw).name,
        peers@.optional == raw_peers(raw).optional,
        raw is None ==> peers@.name.len() == 0 && peers@.optional.is_empty(),
        raw matches Some(package) ==> peers.name@ == package.name@ && forall|name: Seq<char>| #[trigger]
            peers@.optional.contains(name) <==> package.peer_dependencies is Some
                && package.peer_dependencies_meta is Some && text::texts(
                package.peer_dependencies->0@,
            ).contains(name) && exists|k: int|
                0 <= k < package.peer_dependencies_meta->0@.len() && (
                #[trigger] package.peer_dependencies_meta->0@[k]).0@ == name
                    && package.peer_dependencies_meta->0@[k].1,
{
    match raw {
        None => PackageJsonOptionalPeerDependencies::default(),
        Some(package) => match (package.peer_dependencies, package.peer_dependencies_meta) {
            (Some(dependencies), Some(meta)) => PackageJsonOptionalPeerDependencies {
                name: package.name,
                optional_peer_dependencies: optional_peer_dependencies_from_maps(
                    dependencies,
                    &meta,
                ),
            },
            _ => {
                let peers = PackageJsonOptionalPeerDependencies {
                    name: package.name,
                    optional_peer_dependencies: Vec::new(),
                };
                assert(peers@.optional =~= Set::<Seq<char>>::empty());
                peers
            },
        },
    }
}

pub open spec fn utf8_bom() -> Seq<u8> {
    seq![0xefu8, 0xbb, 0xbf]
}

pub open spec fn without_bom(bytes: Seq<u8>) -> Seq<u8> {
    if utf8_bom().is_prefix_of(bytes) {
        bytes.skip(3)
    } else {
        bytes
    }
}

/// The source behind a leading byte order mark.
pub fn package_json_source_without_utf8_bom(source_bytes: &[u8]) -> (r: &[u8])
    ensures
        r@ == without_bom(source_bytes@),
        if source_bytes@.len() >= 3 && source_bytes@[0] == 0xef && source_bytes@[1] == 0xbb
            && source_bytes@[2] == 0xbf {
            source_bytes@ == seq![0xefu8, 0xbb, 0xbf] + r@
        } else {
            r@ == source_bytes@
        },
{
    let bom: [u8; 3] = [0xef, 0xbb, 0xbf];
    assert(bom@ =~= utf8_bom());
    if starts_with_bytes(source_bytes, bom.as_slice()) {
        let end: usize = source_bytes.len();
        let rest: &[u8] = &source_bytes[3..end];
        assert(rest@ =~= source_bytes@.skip(3));
        rest
    } else {
        source_bytes
    }
}

/// A payload of peers that is read is the one that is written for them.
pub proof fn lemma_decoded_peers_encode_back(bytes: Seq<u8>)
    ensures
        decoded_peers(bytes) matches Some((name, listed)) ==> encoded_peers(name, listed) == bytes,
{
    if let Some((name, listed)) = decoded_peers(bytes) {
        let at_name = bytes.skip(12);
        codec::lemma_text_read_is_written(at_name);
        let at_count = (codec::text_at(at_name)->0).1;
        codec::lemma_u32_read_is_written(at_count);
        let (count, at_items) = codec::u32_at(at_count)->0;
        codec::lemma_texts_read_is_written(at_items, count);
        let after = (codec::texts_at(at_items, count)->0).1;
        assert(codec::encoded_texts(listed) + after =~= codec::encoded_texts(listed));
        assert(peers_magic() =~= bytes.subrange(0, 8));
        assert(seq![0u8, 0u8, 0u8, 0u8] =~= bytes.subrange(8, 12));
        assert(bytes =~= bytes.subrange(0, 8) + (bytes.subrange(8, 12) + at_name));
    }
}

/// A payload is read exactly where it has the mark, a known type, two zeros and a whole layout.
pub proof fn lemma_layout_decides(bytes: Seq<u8>, realpath: Seq<char>)
    ensures
        decoded_package(bytes, realpath) is Some <==> bytes.len() >= 12
            && package_magic().is_prefix_of(bytes) && bytes[8] <= 2 && bytes[10] == 0 && bytes[11]
            == 0 && package_layout_holds(bytes, bytes[9]),
        package_layout_holds(bytes, bytes[9]) ==> bytes[9] <= 4,
{
}

} // verus!
