//! Loading and saving: the framing of `GPN2` files (a header line, then
//! the net as JSON), the version migration rule, and which format a file
//! name asks for. Parsing and writing the JSON itself happens around the
//! library, on a copy of the types that carries the serde derives.
use crate::legacy::{gpn2_magic_bytes, has_gpn2_magic, LegacyDebugInfo};
use crate::model::{model_error_text, model_problem, ModelError, PetriNetModel, GPN2_FORMAT_VERSION};
use crate::text::{decimal, push_decimal};
use vstd::prelude::*;
use vstd::string::StringSliceAdditionalSpecFns;

verus! {

/// Why a `GPN2` file could not be loaded.
#[derive(Clone, Copy, Debug, PartialEq, Eq, Structural)]
pub enum Gpn2Error {
    /// The file does not start with the `GPN2` header.
    MissingHeader,
    /// The JSON has no numeric `format_version`.
    MissingFormatVersion,
    /// The JSON's format version (cut to 32 bits) is neither 1 nor 2.
    UnsupportedVersion(u32),
    /// The net read from the file does not validate.
    Invalid(ModelError),
}

/// The message of a `GPN2` error.
pub open spec fn gpn2_error_text(e: Gpn2Error) -> Seq<char> {
    match e {
        Gpn2Error::MissingHeader => "Файл не содержит заголовок GPN2"@,
        Gpn2Error::MissingFormatVersion => "Отсутствует поле format_version"@,
        Gpn2Error::UnsupportedVersion(v) => "Неподдерживаемая версия формата: "@ + decimal(v as nat),
        Gpn2Error::Invalid(m) => model_error_text(m),
    }
}

impl Gpn2Error {
    /// The message of the error.
    pub fn message(&self) -> (s: String)
        ensures
            s@ == gpn2_error_text(*self),
    {
        match *self {
            Gpn2Error::MissingHeader => "Файл не содержит заголовок GPN2".to_owned(),
            Gpn2Error::MissingFormatVersion => "Отсутствует поле format_version".to_owned(),
            Gpn2Error::UnsupportedVersion(v) => {
                let mut s = "Неподдерживаемая версия формата: ".to_owned();
                push_decimal(&mut s, v as u64);
                s
            },
            Gpn2Error::Invalid(m) => m.message(),
        }
    }
}

/// The JSON part of a `GPN2` file: what follows the header.
pub fn gpn2_payload(bytes: &[u8]) -> (r: Result<Vec<u8>, Gpn2Error>)
    ensures
        (bytes@.len() >= 5 && bytes@.take(5) == gpn2_magic_bytes()) ==> r == Ok::<Vec<u8>, Gpn2Error>(
            r->Ok_0,
        ) && r->Ok_0@ == bytes@.skip(5),
        !(bytes@.len() >= 5 && bytes@.take(5) == gpn2_magic_bytes()) ==> r == Err::<Vec<u8>, Gpn2Error>(
            Gpn2Error::MissingHeader,
        ),
{
    if !has_gpn2_magic(bytes) {
        return Err(Gpn2Error::MissingHeader);
    }
    let mut out: Vec<u8> = Vec::new();
    let mut i: usize = 5;
    while i < bytes.len()
        invariant
            5 <= i <= bytes@.len(),
            out@ == bytes@.subrange(5, i as int),
        decreases bytes@.len() - i,
    {
        out.push(bytes[i]);
        proof {
            assert(bytes@.subrange(5, i + 1) == bytes@.subrange(5, i as int).push(bytes@[i as int]));
        }
        i = i + 1;
    }
    proof {
        assert(bytes@.subrange(5, bytes@.len() as int) == bytes@.skip(5));
    }
    Ok(out)
}

/// A `GPN2` file holding the given JSON text.
pub fn gpn2_file_bytes(json: &str) -> (r: Vec<u8>)
    ensures
        r@ == gpn2_magic_bytes() + json.spec_bytes(),
{
    let mut out: Vec<u8> = vec![0x47, 0x50, 0x4E, 0x32, 0x0A];
    let body = json.as_bytes();
    let ghost start = out@;
    let mut i: usize = 0;
    while i < body.len()
        invariant
            i <= body@.len(),
            body@ == json.spec_bytes(),
            start == gpn2_magic_bytes(),
            out@ == start + body@.take(i as int),
        decreases body@.len() - i,
    {
        out.push(body[i]);
        proof {
            assert(body@.take(i + 1) == body@.take(i as int).push(body@[i as int]));
        }
        i = i + 1;
    }
    proof {
        assert(body@.take(body@.len() as int) == body@);
    }
    out
}

/// What the version migration does with the `format_version` field of a
/// loaded JSON value: `Ok(None)` keeps the value as it is (version 2),
/// `Ok(Some(v))` rewrites the field to `v` (version 1 becomes 2), and an
/// error rejects the file; the version is read cut to 32 bits.
pub open spec fn migration(version: Option<u64>) -> Result<Option<u32>, Gpn2Error> {
    match version {
        None => Err(Gpn2Error::MissingFormatVersion),
        Some(v) => if v as u32 == GPN2_FORMAT_VERSION {
            Ok(None)
        } else if v as u32 == 1 {
            Ok(Some(GPN2_FORMAT_VERSION))
        } else {
            Err(Gpn2Error::UnsupportedVersion(v as u32))
        },
    }
}

/// Decides how a loaded file's format version is migrated.
pub fn migrate_format_version(version: Option<u64>) -> (r: Result<Option<u32>, Gpn2Error>)
    ensures
        r == migration(version),
{
    match version {
        None => Err(Gpn2Error::MissingFormatVersion),
        Some(v) => {
            let w = v as u32;
            if w == GPN2_FORMAT_VERSION {
                Ok(None)
            } else if w == 1 {
                Ok(Some(GPN2_FORMAT_VERSION))
            } else {
                Err(Gpn2Error::UnsupportedVersion(w))
            }
        },
    }
}

/// Marks a net with the current format version and validates it, as
/// saving a `GPN2` file does before writing.
pub fn prepare_gpn2_save(model: &mut PetriNetModel) -> (r: Result<(), ModelError>)
    ensures
        *final(model) == (PetriNetModel { format_version: GPN2_FORMAT_VERSION, ..*old(model) }),
        match model_problem(*final(model)) {
            Some(e) => r == Err::<(), ModelError>(e),
            None => r == Ok::<(), ModelError>(()),
        },
{
    model.format_version = GPN2_FORMAT_VERSION;
    model.validate()
}

/// Validates a net read from a `GPN2` file.
pub fn check_loaded_model(model: &PetriNetModel) -> (r: Result<(), Gpn2Error>)
    ensures
        match model_problem(*model) {
            Some(e) => r == Err::<(), Gpn2Error>(Gpn2Error::Invalid(e)),
            None => r == Ok::<(), Gpn2Error>(()),
        },
{
    match model.validate() {
        Ok(()) => Ok(()),
        Err(e) => Err(Gpn2Error::Invalid(e)),
    }
}

/// `c` lower-cased when it is an ASCII capital.
pub open spec fn ascii_lower(c: char) -> char {
    if 'A' <= c <= 'Z' {
        ((c as u32) + 32) as char
    } else {
        c
    }
}

/// Whether a file extension asks for the `GPN2` format: "gpn2" in any
/// ASCII case.
pub fn is_gpn2_extension(ext: &str) -> (r: bool)
    ensures
        r == (ext@.len() == 4 && ascii_lower(ext@[0]) == 'g' && ascii_lower(ext@[1]) == 'p' && ascii_lower(
            ext@[2],
        ) == 'n' && ascii_lower(ext@[3]) == '2'),
{
    let cs = crate::text::chars_of(ext);
    if cs.len() != 4 {
        return false;
    }
    let a = cs[0];
    let b = cs[1];
    let c = cs[2];
    let d = cs[3];
    (a == 'g' || a == 'G') && (b == 'p' || b == 'P') && (c == 'n' || c == 'N') && d == '2'
}

/// A loaded net with its warnings and, for a legacy file, what was learnt
/// about it.
#[derive(Clone, Debug)]
pub struct LoadGpnResult {
    pub model: PetriNetModel,
    pub warnings: Vec<String>,
    pub legacy_debug: Option<LegacyDebugInfo>,
}

/// The warning for a JSON net read without the `GPN2` header.
pub fn headerless_json_warning() -> (s: String)
    ensures
        s@ == "Файл JSON открыт без заголовка GPN2"@,
{
    "Файл JSON открыт без заголовка GPN2".to_owned()
}

/// A `GPN2` file written for any JSON text starts with the header (so it
/// is not taken for a legacy file), and its JSON part is that text.
pub proof fn lemma_gpn2_file_roundtrip(json: Seq<u8>)
    ensures
        (gpn2_magic_bytes() + json).len() >= 5,
        (gpn2_magic_bytes() + json).take(5) == gpn2_magic_bytes(),
        (gpn2_magic_bytes() + json).skip(5) == json,
{
    let file = gpn2_magic_bytes() + json;
    assert(file.take(5) =~= gpn2_magic_bytes());
    assert(file.skip(5) =~= json);
}

} // verus!
