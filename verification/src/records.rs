//! The binary layout of the records, as functions on sequences of bytes.
//!
//! All integers are little-endian. A string is its length in bytes as a
//! `u16` and then its UTF-8 bytes; a string that may be absent is written
//! with length 0 where it is absent. A map of languages is the number of its
//! entries as a `u16` and then the entries in rising order of their keys,
//! each a key byte and five `u32` counts. A project is its path, its size as
//! a `u64`, its git summary, its languages and the counts of all languages
//! together; the payload of a cache is the number of projects as a `u16` and
//! then the projects.
//!
//! An encoder gives the bytes of a value, or `LengthOverflow` where a length
//! or a count does not fit its prefix. A decoder gives the value that stands
//! at the start of the input and the input behind it, or the reason why no
//! value stands there.

use crate::error::CacheError;
use crate::huffman::{huffman_decode_spec, huffman_encode_spec};
use crate::projects::{ProjectLanguage, ProjectView};
use crate::utils::GitInfoView;
use crate::wire::{from_le_u16, from_le_u32, from_le_u64, le_u16, le_u32, le_u64};
use vstd::prelude::*;
use vstd::utf8::{decode_utf8, encode_utf8, valid_utf8};

verus! {

/// The signature that a cache file starts with: the letters `YMIR`.
pub open spec fn magic() -> Seq<u8> {
    seq![0x59u8, 0x4du8, 0x49u8, 0x52u8]
}

/// The version of the format that this library reads and writes. A file of
/// any other version is refused as a whole: a cache can always be made anew,
/// so no older or newer layout is read.
pub const VERSION: u8 = 4;

/// The bytes of two parts one behind the other, or the error of the first
/// part that has one.
pub open spec fn joined(
    first: Result<Seq<u8>, CacheError>,
    second: Result<Seq<u8>, CacheError>,
) -> Result<Seq<u8>, CacheError> {
    match first {
        Err(e) => Err(e),
        Ok(head) => match second {
            Err(e) => Err(e),
            Ok(tail) => Ok(head + tail),
        },
    }
}

/// The first byte of the input.
pub open spec fn take_u8(input: Seq<u8>) -> Result<(u8, Seq<u8>), CacheError> {
    if input.len() < 1 {
        Err(CacheError::TruncatedInput)
    } else {
        Ok((input[0], input.skip(1)))
    }
}

/// The `u16` at the start of the input.
pub open spec fn take_u16(input: Seq<u8>) -> Result<(u16, Seq<u8>), CacheError> {
    if input.len() < 2 {
        Err(CacheError::TruncatedInput)
    } else {
        Ok((from_le_u16(input.subrange(0, 2)), input.skip(2)))
    }
}

/// The `u32` at the start of the input.
pub open spec fn take_u32(input: Seq<u8>) -> Result<(u32, Seq<u8>), CacheError> {
    if input.len() < 4 {
        Err(CacheError::TruncatedInput)
    } else {
        Ok((from_le_u32(input.subrange(0, 4)), input.skip(4)))
    }
}

/// The `u64` at the start of the input.
pub open spec fn take_u64(input: Seq<u8>) -> Result<(u64, Seq<u8>), CacheError> {
    if input.len() < 8 {
        Err(CacheError::TruncatedInput)
    } else {
        Ok((from_le_u64(input.subrange(0, 8)), input.skip(8)))
    }
}

/// The string that the first `len` bytes of the input hold.
pub open spec fn take_string(input: Seq<u8>, len: nat) -> Result<(Seq<char>, Seq<u8>), CacheError> {
    if input.len() < len {
        Err(CacheError::TruncatedInput)
    } else if !valid_utf8(input.subrange(0, len as int)) {
        Err(CacheError::InvalidUtf8)
    } else {
        Ok((decode_utf8(input.subrange(0, len as int)), input.skip(len as int)))
    }
}

/// A string: the number of its bytes, then the bytes.
pub open spec fn encode_text(text: Seq<char>) -> Result<Seq<u8>, CacheError> {
    let bytes = encode_utf8(text);
    if bytes.len() > 65535 {
        Err(CacheError::LengthOverflow)
    } else {
        Ok(le_u16(bytes.len() as u16) + bytes)
    }
}

/// A string that may be absent: length 0 where it is.
pub open spec fn encode_optional_text(text: Option<Seq<char>>) -> Result<Seq<u8>, CacheError> {
    match text {
        Some(chars) => encode_text(chars),
        None => Ok(le_u16(0)),
    }
}

/// The string at the start of the input.
pub open spec fn decode_text(input: Seq<u8>) -> Result<(Seq<char>, Seq<u8>), CacheError> {
    match take_u16(input) {
        Err(e) => Err(e),
        Ok((len, rest)) => take_string(rest, len as nat),
    }
}

/// The string at the start of the input, absent where its length is 0.
pub open spec fn decode_optional_text(input: Seq<u8>) -> Result<
    (Option<Seq<char>>, Seq<u8>),
    CacheError,
> {
    match take_u16(input) {
        Err(e) => Err(e),
        Ok((len, rest)) => if len == 0 {
            Ok((None, rest))
        } else {
            match take_string(rest, len as nat) {
                Err(e) => Err(e),
                Ok((text, rest)) => Ok((Some(text), rest)),
            }
        },
    }
}

/// Line counts: files, lines, code, comments and blanks, four bytes each.
pub open spec fn encode_language(counts: ProjectLanguage) -> Seq<u8> {
    le_u32(counts.files) + le_u32(counts.lines) + le_u32(counts.code) + le_u32(counts.comments)
        + le_u32(counts.blanks)
}

/// The line counts at the start of the input.
pub open spec fn decode_language(input: Seq<u8>) -> Result<(ProjectLanguage, Seq<u8>), CacheError> {
    if input.len() < 20 {
        Err(CacheError::TruncatedInput)
    } else {
        Ok(
            (
                ProjectLanguage {
                    files: from_le_u32(input.subrange(0, 4)),
                    lines: from_le_u32(input.subrange(4, 8)),
                    code: from_le_u32(input.subrange(8, 12)),
                    comments: from_le_u32(input.subrange(12, 16)),
                    blanks: from_le_u32(input.subrange(16, 20)),
                },
                input.skip(20),
            ),
        )
    }
}

/// A git summary: the remote, the two dates, the last message, the number
/// of commits.
pub open spec fn encode_git_info(info: GitInfoView) -> Result<Seq<u8>, CacheError> {
    joined(
        joined(
            joined(
                joined(encode_optional_text(info.remote_url), Ok(le_u32(info.init_date))),
                Ok(le_u32(info.last_commit_date)),
            ),
            encode_optional_text(info.last_commit_msg),
        ),
        Ok(le_u32(info.commit_count)),
    )
}

/// The git summary at the start of the input.
pub open spec fn decode_git_info(input: Seq<u8>) -> Result<(GitInfoView, Seq<u8>), CacheError> {
    match decode_optional_text(input) {
        Err(e) => Err(e),
        Ok((remote_url, rest)) => match take_u32(rest) {
            Err(e) => Err(e),
            Ok((init_date, rest)) => match take_u32(rest) {
                Err(e) => Err(e),
                Ok((last_commit_date, rest)) => match decode_optional_text(rest) {
                    Err(e) => Err(e),
                    Ok((last_commit_msg, rest)) => match take_u32(rest) {
                        Err(e) => Err(e),
                        Ok((commit_count, rest)) => Ok(
                            (
                                GitInfoView {
                                    remote_url,
                                    init_date,
                                    last_commit_date,
                                    last_commit_msg,
                                    commit_count,
                                },
                                rest,
                            ),
                        ),
                    },
                },
            },
        },
    }
}

/// The entries of the languages with a key from `from` on, in rising order
/// of the keys: the key, then the counts.
pub open spec fn language_entries(languages: Map<u8, ProjectLanguage>, from: int) -> Seq<u8>
    decreases 256 - from,
{
    if from >= 256 || from < 0 {
        Seq::empty()
    } else if languages.contains_key(from as u8) {
        seq![from as u8] + encode_language(languages[from as u8]) + language_entries(
            languages,
            from + 1,
        )
    } else {
        language_entries(languages, from + 1)
    }
}

/// A map of languages: the number of its entries, then the entries.
pub open spec fn encode_languages(languages: Map<u8, ProjectLanguage>) -> Result<
    Seq<u8>,
    CacheError,
> {
    if languages.len() > 65535 {
        Err(CacheError::LengthOverflow)
    } else {
        Ok(le_u16(languages.len() as u16) + language_entries(languages, 0))
    }
}

/// The map after `count` more entries are read from the input into
/// `found`; a later entry with the same key replaces an earlier one.
pub open spec fn decode_language_entries(
    input: Seq<u8>,
    count: nat,
    found: Map<u8, ProjectLanguage>,
) -> Result<(Map<u8, ProjectLanguage>, Seq<u8>), CacheError>
    decreases count,
{
    if count == 0 {
        Ok((found, input))
    } else {
        match take_u8(input) {
            Err(e) => Err(e),
            Ok((key, rest)) => match decode_language(rest) {
                Err(e) => Err(e),
                Ok((counts, rest)) => decode_language_entries(
                    rest,
                    (count - 1) as nat,
                    found.insert(key, counts),
                ),
            },
        }
    }
}

/// The map of languages at the start of the input.
pub open spec fn decode_languages(input: Seq<u8>) -> Result<
    (Map<u8, ProjectLanguage>, Seq<u8>),
    CacheError,
> {
    match take_u16(input) {
        Err(e) => Err(e),
        Ok((count, rest)) => decode_language_entries(rest, count as nat, Map::empty()),
    }
}

/// A project: path, size, git summary, languages, counts of all languages.
pub open spec fn encode_project(project: ProjectView) -> Result<Seq<u8>, CacheError> {
    joined(
        joined(
            joined(
                joined(encode_text(project.path), Ok(le_u64(project.size))),
                encode_git_info(project.git_info),
            ),
            encode_languages(project.languages),
        ),
        Ok(encode_language(project.languages_total)),
    )
}

/// The project at the start of the input.
pub open spec fn decode_project(input: Seq<u8>) -> Result<(ProjectView, Seq<u8>), CacheError> {
    match decode_text(input) {
        Err(e) => Err(e),
        Ok((path, rest)) => match take_u64(rest) {
            Err(e) => Err(e),
            Ok((size, rest)) => match decode_git_info(rest) {
                Err(e) => Err(e),
                Ok((git_info, rest)) => match decode_languages(rest) {
                    Err(e) => Err(e),
                    Ok((languages, rest)) => match decode_language(rest) {
                        Err(e) => Err(e),
                        Ok((languages_total, rest)) => Ok(
                            (
                                ProjectView { path, size, git_info, languages, languages_total },
                                rest,
                            ),
                        ),
                    },
                },
            },
        },
    }
}

/// Projects one behind the other.
pub open spec fn encode_projects(projects: Seq<ProjectView>) -> Result<Seq<u8>, CacheError>
    decreases projects.len(),
{
    if projects.len() == 0 {
        Ok(Seq::empty())
    } else {
        joined(encode_project(projects[0]), encode_projects(projects.skip(1)))
    }
}

/// The list after `count` more projects are read from the input and added
/// to `found`.
pub open spec fn decode_projects(input: Seq<u8>, count: nat, found: Seq<ProjectView>) -> Result<
    (Seq<ProjectView>, Seq<u8>),
    CacheError,
>
    decreases count,
{
    if count == 0 {
        Ok((found, input))
    } else {
        match decode_project(input) {
            Err(e) => Err(e),
            Ok((project, rest)) => decode_projects(rest, (count - 1) as nat, found.push(project)),
        }
    }
}

/// The payload of a cache: the number of projects, then the projects.
pub open spec fn encode_payload(projects: Seq<ProjectView>) -> Result<Seq<u8>, CacheError> {
    if projects.len() > 65535 {
        Err(CacheError::LengthOverflow)
    } else {
        joined(Ok(le_u16(projects.len() as u16)), encode_projects(projects))
    }
}

/// The projects that a payload holds. What follows the last project is not
/// looked at.
pub open spec fn decode_payload(input: Seq<u8>) -> Result<Seq<ProjectView>, CacheError> {
    match take_u16(input) {
        Err(e) => Err(e),
        Ok((count, rest)) => match decode_projects(rest, count as nat, Seq::empty()) {
            Err(e) => Err(e),
            Ok((projects, _)) => Ok(projects),
        },
    }
}

/// A cache file: the signature, the version, and the compressed payload.
pub open spec fn encode_cache(projects: Seq<ProjectView>) -> Result<Seq<u8>, CacheError> {
    match encode_payload(projects) {
        Err(e) => Err(e),
        Ok(payload) => match huffman_encode_spec(payload) {
            Err(e) => Err(e),
            Ok(compressed) => Ok(magic() + seq![VERSION] + compressed),
        },
    }
}

/// The projects of a cache file. The signature is checked first, then the
/// version; what follows the version is decompressed as a whole and read as
/// a payload. The input behind the value is what follows the version.
pub open spec fn decode_cache(input: Seq<u8>) -> Result<(Seq<ProjectView>, Seq<u8>), CacheError> {
    match check_header(input) {
        Err(e) => Err(e),
        Ok(_) => match decode_body(input.skip(5)) {
            Err(e) => Err(e),
            Ok(projects) => Ok((projects, input.skip(5))),
        },
    }
}

/// The projects that the part of a cache file behind the version byte
/// holds: it is decompressed as a whole and read as a payload.
pub open spec fn decode_body(compressed: Seq<u8>) -> Result<Seq<ProjectView>, CacheError> {
    match huffman_decode_spec(compressed) {
        Err(e) => Err(e),
        Ok(payload) => decode_payload(payload),
    }
}

/// Whether the input starts as a cache file of this version does: with the
/// signature, or else `MagicMismatch`, and then the version, or else
/// `VersionMismatch`; `TruncatedInput` where it ends before one of them.
pub open spec fn check_header(input: Seq<u8>) -> Result<(), CacheError> {
    if input.len() < 4 {
        Err(CacheError::TruncatedInput)
    } else if input.subrange(0, 4) != magic() {
        Err(CacheError::MagicMismatch)
    } else if input.len() < 5 {
        Err(CacheError::TruncatedInput)
    } else if input[4] != VERSION {
        Err(CacheError::VersionMismatch)
    } else {
        Ok(())
    }
}

} // verus!
