//! What holds of the record layout and of the cache file: reading undoes
//! writing, a wrong signature or version is told apart, and the bytes of a
//! value depend on nothing but the value.

use crate::cache::CacheSerializer;
use crate::config::Cache;
use crate::error::CacheError;
use crate::huffman::huffman_encode_spec;
use crate::huffman_laws::law_huffman_round_trip;
use crate::projects::{ProjectLanguage, ProjectView};
use crate::records::{
    decode_cache, decode_git_info, decode_language, decode_language_entries, decode_languages,
    decode_optional_text, decode_payload, decode_project, decode_projects, decode_text,
    encode_cache, encode_git_info, encode_language, encode_languages, encode_optional_text,
    encode_payload, encode_project, encode_projects, encode_text, language_entries, magic,
    take_u16, take_u32, take_u64, VERSION,
};
use crate::utils::GitInfoView;
use crate::wire::{le_u16, le_u32, le_u64, lemma_le_u16, lemma_le_u32, lemma_le_u64};
use std::collections::HashMap;
use vstd::prelude::*;
use vstd::utf8::{encode_utf8, encode_utf8_decode_utf8, encode_utf8_valid_utf8};

verus! {

/// The longest that the bytes of a project can be.
pub open spec fn project_bound() -> int {
    202029
}

/// Neither string of the summary is present and empty. The layout writes an
/// absent string with length 0, so it cannot tell an empty one from it.
pub open spec fn has_no_empty_text(info: GitInfoView) -> bool {
    info.remote_url != Some(Seq::<char>::empty()) && info.last_commit_msg != Some(
        Seq::<char>::empty(),
    )
}

/// A project as a `Project` can hold it, and one that is read back as it was
/// written: its map of languages is finite, and its git summary has no
/// string that is present and empty.
pub open spec fn is_storable(project: ProjectView) -> bool {
    project.languages.dom().finite() && has_no_empty_text(project.git_info)
}

/// A `u16` is read back from its bytes, whatever follows them.
pub proof fn lemma_take_u16(x: u16, rest: Seq<u8>)
    ensures
        take_u16(le_u16(x) + rest) == Ok::<(u16, Seq<u8>), CacheError>((x, rest)),
{
    lemma_le_u16(x, Seq::empty());
    assert((le_u16(x) + rest).subrange(0, 2) =~= le_u16(x));
    assert((le_u16(x) + rest).skip(2) =~= rest);
}

/// A `u32` is read back from its bytes, whatever follows them.
pub proof fn lemma_take_u32(x: u32, rest: Seq<u8>)
    ensures
        take_u32(le_u32(x) + rest) == Ok::<(u32, Seq<u8>), CacheError>((x, rest)),
{
    lemma_le_u32(x, Seq::empty());
    assert((le_u32(x) + rest).subrange(0, 4) =~= le_u32(x));
    assert((le_u32(x) + rest).skip(4) =~= rest);
}

/// A `u64` is read back from its bytes, whatever follows them.
pub proof fn lemma_take_u64(x: u64, rest: Seq<u8>)
    ensures
        take_u64(le_u64(x) + rest) == Ok::<(u64, Seq<u8>), CacheError>((x, rest)),
{
    lemma_le_u64(x, Seq::empty());
    assert((le_u64(x) + rest).subrange(0, 8) =~= le_u64(x));
    assert((le_u64(x) + rest).skip(8) =~= rest);
}

/// A string is read back from its bytes, whatever follows them.
pub proof fn lemma_text_round_trip(text: Seq<char>, bytes: Seq<u8>, rest: Seq<u8>)
    requires
        encode_text(text) == Ok::<Seq<u8>, CacheError>(bytes),
    ensures
        decode_text(bytes + rest) == Ok::<(Seq<char>, Seq<u8>), CacheError>((text, rest)),
        bytes.len() <= 65537,
        text.len() > 0 ==> bytes.len() > 2,
{
    let encoded = encode_utf8(text);
    let len = encoded.len() as u16;
    lemma_le_u16(len, Seq::empty());
    lemma_take_u16(len, encoded + rest);
    assert(bytes + rest =~= le_u16(len) + (encoded + rest));
    assert((encoded + rest).subrange(0, len as int) =~= encoded);
    assert((encoded + rest).skip(len as int) =~= rest);
    encode_utf8_valid_utf8(text);
    encode_utf8_decode_utf8(text);
}

/// A string that may be absent is read back from its bytes, unless it is
/// present and empty.
pub proof fn lemma_optional_text_round_trip(
    text: Option<Seq<char>>,
    bytes: Seq<u8>,
    rest: Seq<u8>,
)
    requires
        text != Some(Seq::<char>::empty()),
        encode_optional_text(text) == Ok::<Seq<u8>, CacheError>(bytes),
    ensures
        decode_optional_text(bytes + rest) == Ok::<(Option<Seq<char>>, Seq<u8>), CacheError>(
            (text, rest),
        ),
        bytes.len() <= 65537,
{
    match text {
        Some(chars) => {
            assert(chars.len() > 0) by {
                if chars.len() == 0 {
                    assert(chars =~= Seq::<char>::empty());
                }
            }
            lemma_text_round_trip(chars, bytes, rest);
            let encoded = encode_utf8(chars);
            let len = encoded.len() as u16;
            lemma_le_u16(len, Seq::empty());
            lemma_take_u16(len, encoded + rest);
            assert(bytes + rest =~= le_u16(len) + (encoded + rest));
        },
        None => {
            lemma_le_u16(0, Seq::empty());
            lemma_take_u16(0, rest);
        },
    }
}

/// Line counts are read back from their bytes, whatever follows them.
pub proof fn lemma_language_round_trip(counts: ProjectLanguage, rest: Seq<u8>)
    ensures
        decode_language(encode_language(counts) + rest) == Ok::<
            (ProjectLanguage, Seq<u8>),
            CacheError,
        >((counts, rest)),
        encode_language(counts).len() == 20,
{
    let bytes = encode_language(counts);
    let input = bytes + rest;
    lemma_le_u32(counts.files, Seq::empty());
    lemma_le_u32(counts.lines, Seq::empty());
    lemma_le_u32(counts.code, Seq::empty());
    lemma_le_u32(counts.comments, Seq::empty());
    lemma_le_u32(counts.blanks, Seq::empty());
    assert(input.subrange(0, 4) =~= le_u32(counts.files));
    assert(input.subrange(4, 8) =~= le_u32(counts.lines));
    assert(input.subrange(8, 12) =~= le_u32(counts.code));
    assert(input.subrange(12, 16) =~= le_u32(counts.comments));
    assert(input.subrange(16, 20) =~= le_u32(counts.blanks));
    assert(input.skip(20) =~= rest);
}

/// A git summary is read back from its bytes, unless one of its strings is
/// present and empty.
pub proof fn lemma_git_info_round_trip(info: GitInfoView, bytes: Seq<u8>, rest: Seq<u8>)
    requires
        has_no_empty_text(info),
        encode_git_info(info) == Ok::<Seq<u8>, CacheError>(bytes),
    ensures
        decode_git_info(bytes + rest) == Ok::<(GitInfoView, Seq<u8>), CacheError>((info, rest)),
        bytes.len() <= 131086,
{
    let remote = encode_optional_text(info.remote_url)->Ok_0;
    let message = encode_optional_text(info.last_commit_msg)->Ok_0;
    let init = le_u32(info.init_date);
    let last = le_u32(info.last_commit_date);
    let count = le_u32(info.commit_count);
    lemma_le_u32(info.init_date, Seq::empty());
    lemma_le_u32(info.last_commit_date, Seq::empty());
    lemma_le_u32(info.commit_count, Seq::empty());
    assert(bytes == remote + init + last + message + count);
    assert(bytes + rest =~= remote + (init + (last + (message + (count + rest)))));
    lemma_optional_text_round_trip(
        info.remote_url,
        remote,
        init + (last + (message + (count + rest))),
    );
    lemma_take_u32(info.init_date, last + (message + (count + rest)));
    lemma_take_u32(info.last_commit_date, message + (count + rest));
    lemma_optional_text_round_trip(info.last_commit_msg, message, count + rest);
    lemma_take_u32(info.commit_count, rest);
}

/// The keys from `from` on that the map holds, counted.
pub open spec fn keys_from(languages: Map<u8, ProjectLanguage>, from: int) -> nat
    decreases 256 - from,
{
    if from >= 256 || from < 0 {
        0
    } else if languages.contains_key(from as u8) {
        1 + keys_from(languages, from + 1)
    } else {
        keys_from(languages, from + 1)
    }
}

/// The keys of the map from `from` on.
pub open spec fn key_set_from(languages: Map<u8, ProjectLanguage>, from: int) -> Set<u8> {
    Set::new(|key: u8| from <= key && languages.contains_key(key))
}

/// The keys from `from` on are as many as they count to.
proof fn lemma_keys_from(languages: Map<u8, ProjectLanguage>, from: int)
    requires
        0 <= from <= 256,
    ensures
        key_set_from(languages, from).finite(),
        key_set_from(languages, from).len() == keys_from(languages, from),
        keys_from(languages, from) <= 256 - from,
    decreases 256 - from,
{
    if from == 256 {
        assert(key_set_from(languages, from) =~= Set::<u8>::empty());
    } else {
        lemma_keys_from(languages, from + 1);
        let higher = key_set_from(languages, from + 1);
        if languages.contains_key(from as u8) {
            assert(key_set_from(languages, from) =~= higher.insert(from as u8));
            assert(!higher.contains(from as u8));
        } else {
            assert(key_set_from(languages, from) =~= higher);
        }
    }
}

/// A map has as many entries as it has keys counted one by one.
pub proof fn lemma_key_count(languages: Map<u8, ProjectLanguage>)
    ensures
        languages.dom().finite(),
        languages.len() == keys_from(languages, 0),
        languages.len() <= 256,
{
    lemma_keys_from(languages, 0);
    assert(key_set_from(languages, 0) =~= languages.dom());
}

/// The entries from `from` on take 21 bytes each.
proof fn lemma_language_entries_len(languages: Map<u8, ProjectLanguage>, from: int)
    requires
        0 <= from <= 256,
    ensures
        language_entries(languages, from).len() == 21 * keys_from(languages, from),
    decreases 256 - from,
{
    if from < 256 {
        lemma_language_entries_len(languages, from + 1);
        if languages.contains_key(from as u8) {
            lemma_language_round_trip(languages[from as u8], Seq::empty());
        }
    }
}

/// Reading the entries that were written from `from` on adds them to what
/// was found before.
proof fn lemma_language_entries_round_trip(
    languages: Map<u8, ProjectLanguage>,
    from: int,
    found: Map<u8, ProjectLanguage>,
    rest: Seq<u8>,
)
    requires
        0 <= from <= 256,
        forall|key: u8| found.contains_key(key) <==> (key < from && languages.contains_key(key)),
        forall|key: u8| found.contains_key(key) ==> found[key] == languages[key],
    ensures
        decode_language_entries(
            language_entries(languages, from) + rest,
            keys_from(languages, from),
            found,
        ) == Ok::<(Map<u8, ProjectLanguage>, Seq<u8>), CacheError>((languages, rest)),
    decreases 256 - from,
{
    if from == 256 {
        assert(language_entries(languages, from) + rest =~= rest);
        lemma_key_count(languages);
        assert(found =~= languages);
    } else {
        let key = from as u8;
        if languages.contains_key(key) {
            let counts = languages[key];
            let tail = language_entries(languages, from + 1);
            let input = language_entries(languages, from) + rest;
            assert(input =~= seq![key] + (encode_language(counts) + (tail + rest)));
            assert(input[0] == key);
            assert(input.skip(1) =~= encode_language(counts) + (tail + rest));
            lemma_language_round_trip(counts, tail + rest);
            let next = found.insert(key, counts);
            assert forall|k: u8| next.contains_key(k) <==> (k < from + 1
                && languages.contains_key(k)) by {}
            lemma_language_entries_round_trip(languages, from + 1, next, rest);
        } else {
            assert forall|k: u8| found.contains_key(k) <==> (k < from + 1
                && languages.contains_key(k)) by {}
            lemma_language_entries_round_trip(languages, from + 1, found, rest);
        }
    }
}

/// A map of languages is read back from its bytes, whatever follows them.
pub proof fn lemma_languages_round_trip(
    languages: Map<u8, ProjectLanguage>,
    bytes: Seq<u8>,
    rest: Seq<u8>,
)
    requires
        languages.dom().finite(),
        encode_languages(languages) == Ok::<Seq<u8>, CacheError>(bytes),
    ensures
        decode_languages(bytes + rest) == Ok::<(Map<u8, ProjectLanguage>, Seq<u8>), CacheError>(
            (languages, rest),
        ),
        bytes.len() <= 5378,
{
    lemma_key_count(languages);
    lemma_language_entries_len(languages, 0);
    let count = languages.len() as u16;
    let entries = language_entries(languages, 0);
    lemma_le_u16(count, Seq::empty());
    lemma_take_u16(count, entries + rest);
    assert(bytes + rest =~= le_u16(count) + (entries + rest));
    lemma_language_entries_round_trip(languages, 0, Map::empty(), rest);
}

/// A project is read back from its bytes, whatever follows them.
pub proof fn lemma_project_round_trip(project: ProjectView, bytes: Seq<u8>, rest: Seq<u8>)
    requires
        is_storable(project),
        encode_project(project) == Ok::<Seq<u8>, CacheError>(bytes),
    ensures
        decode_project(bytes + rest) == Ok::<(ProjectView, Seq<u8>), CacheError>((project, rest)),
        bytes.len() <= project_bound(),
{
    let path = encode_text(project.path)->Ok_0;
    let size = le_u64(project.size);
    let info = encode_git_info(project.git_info)->Ok_0;
    let languages = encode_languages(project.languages)->Ok_0;
    let total = encode_language(project.languages_total);
    lemma_le_u64(project.size, Seq::empty());
    assert(bytes == path + size + info + languages + total);
    assert(bytes + rest =~= path + (size + (info + (languages + (total + rest)))));
    lemma_text_round_trip(project.path, path, size + (info + (languages + (total + rest))));
    lemma_take_u64(project.size, info + (languages + (total + rest)));
    lemma_git_info_round_trip(project.git_info, info, languages + (total + rest));
    lemma_languages_round_trip(project.languages, languages, total + rest);
    lemma_language_round_trip(project.languages_total, rest);
}

/// The projects that were written one behind the other are read back and
/// added to what was found before.
pub proof fn lemma_projects_round_trip(
    projects: Seq<ProjectView>,
    bytes: Seq<u8>,
    found: Seq<ProjectView>,
    rest: Seq<u8>,
)
    requires
        forall|i: int| 0 <= i < projects.len() ==> is_storable(#[trigger] projects[i]),
        encode_projects(projects) == Ok::<Seq<u8>, CacheError>(bytes),
    ensures
        decode_projects(bytes + rest, projects.len(), found) == Ok::<
            (Seq<ProjectView>, Seq<u8>),
            CacheError,
        >((found + projects, rest)),
        bytes.len() <= project_bound() * projects.len(),
    decreases projects.len(),
{
    if projects.len() == 0 {
        assert(bytes + rest =~= rest);
        assert(found + projects =~= found);
    } else {
        let first = projects[0];
        let others = projects.skip(1);
        let head = encode_project(first)->Ok_0;
        let tail = encode_projects(others)->Ok_0;
        assert(bytes == head + tail);
        assert(bytes + rest =~= head + (tail + rest));
        lemma_project_round_trip(first, head, tail + rest);
        assert forall|i: int| 0 <= i < others.len() implies is_storable(#[trigger] others[i]) by {
            assert(others[i] == projects[i + 1]);
        }
        lemma_projects_round_trip(others, tail, found.push(first), rest);
        assert(found.push(first) + others =~= found + projects);
        assert(project_bound() * projects.len() == project_bound() * others.len() + project_bound())
            by (nonlinear_arith)
            requires
                projects.len() == others.len() + 1,
        ;
    }
}

/// A payload is read back as the projects it was written from, and is not
/// longer than a `u64` can count.
pub proof fn lemma_payload_round_trip(projects: Seq<ProjectView>, payload: Seq<u8>)
    requires
        forall|i: int| 0 <= i < projects.len() ==> is_storable(#[trigger] projects[i]),
        encode_payload(projects) == Ok::<Seq<u8>, CacheError>(payload),
    ensures
        decode_payload(payload) == Ok::<Seq<ProjectView>, CacheError>(projects),
        payload.len() <= u64::MAX,
{
    let count = projects.len() as u16;
    let body = encode_projects(projects)->Ok_0;
    lemma_le_u16(count, Seq::empty());
    lemma_take_u16(count, body);
    lemma_projects_round_trip(projects, body, Seq::empty(), Seq::empty());
    assert(body + Seq::<u8>::empty() =~= body);
    assert(Seq::<ProjectView>::empty() + projects =~= projects);
    assert(project_bound() * projects.len() <= project_bound() * 65535) by (nonlinear_arith)
        requires
            projects.len() <= 65535,
    ;
}

/// Reading undoes writing: a cache file that was written from a list of
/// projects is read back as that list, field for field. The cursor that read
/// it stands behind the version byte.
pub proof fn law_cache_round_trip(projects: Seq<ProjectView>, file: Seq<u8>)
    requires
        forall|i: int| 0 <= i < projects.len() ==> is_storable(#[trigger] projects[i]),
        encode_cache(projects) == Ok::<Seq<u8>, CacheError>(file),
    ensures
        decode_cache(file) == Ok::<(Seq<ProjectView>, Seq<u8>), CacheError>(
            (projects, file.skip(5)),
        ),
{
    let payload = encode_payload(projects)->Ok_0;
    let compressed = huffman_encode_spec(payload)->Ok_0;
    lemma_payload_round_trip(projects, payload);
    law_huffman_round_trip(payload, compressed);
    assert(file == magic() + seq![VERSION] + compressed);
    assert(file.subrange(0, 4) =~= magic());
    assert(file[4] == VERSION);
    assert(file.skip(5) =~= compressed);
}

/// A file whose first four bytes are not the signature is refused with
/// `MagicMismatch`, whatever follows them.
pub proof fn law_magic_mismatch(file: Seq<u8>)
    requires
        file.len() >= 4,
        file.subrange(0, 4) != magic(),
    ensures
        decode_cache(file) == Err::<(Seq<ProjectView>, Seq<u8>), CacheError>(
            CacheError::MagicMismatch,
        ),
{
}

/// A file that starts with the signature and goes on with a version other
/// than this library's is refused with `VersionMismatch`, whatever follows.
pub proof fn law_version_mismatch(file: Seq<u8>)
    requires
        file.len() >= 5,
        file.subrange(0, 4) == magic(),
        file[4] != VERSION,
    ensures
        decode_cache(file) == Err::<(Seq<ProjectView>, Seq<u8>), CacheError>(
            CacheError::VersionMismatch,
        ),
{
}

/// A written cache file with one byte of its signature altered is refused
/// with `MagicMismatch`, and one with its version byte altered is refused
/// with `VersionMismatch`.
pub proof fn law_altered_header(projects: Seq<ProjectView>, file: Seq<u8>, at: int, byte: u8)
    requires
        encode_cache(projects) == Ok::<Seq<u8>, CacheError>(file),
        0 <= at < 5,
        byte != file[at],
    ensures
        file.len() >= 5,
        at < 4 ==> decode_cache(file.update(at, byte)) == Err::<
            (Seq<ProjectView>, Seq<u8>),
            CacheError,
        >(CacheError::MagicMismatch),
        at == 4 ==> decode_cache(file.update(at, byte)) == Err::<
            (Seq<ProjectView>, Seq<u8>),
            CacheError,
        >(CacheError::VersionMismatch),
{
    let payload = encode_payload(projects)->Ok_0;
    let compressed = huffman_encode_spec(payload)->Ok_0;
    assert(file == magic() + seq![VERSION] + compressed);
    let altered = file.update(at, byte);
    assert(file.subrange(0, 4) =~= magic());
    if at < 4 {
        assert(altered.subrange(0, 4)[at] == byte);
        assert(magic()[at] == file[at]);
    } else {
        assert(altered.subrange(0, 4) =~= file.subrange(0, 4));
    }
}

/// The bytes of a cache depend on the projects alone: two caches that hold
/// the same projects, with the same languages under the same keys, are
/// written alike, in whatever order their maps hold the languages.
pub proof fn law_encoding_deterministic(first: Cache, second: Cache)
    requires
        first@ =~~= second@,
    ensures
        <Cache as CacheSerializer>::encoding(first@) == <Cache as CacheSerializer>::encoding(
            second@,
        ),
{
}

/// The bytes of a map of languages depend on its entries alone, not on the
/// order in which a hash map holds them.
pub proof fn law_languages_deterministic(
    first: HashMap<u8, ProjectLanguage>,
    second: HashMap<u8, ProjectLanguage>,
)
    requires
        first@ =~= second@,
    ensures
        encode_languages(first@) == encode_languages(second@),
{
}

/// A string is written exactly when its UTF-8 form has at most 65535 bytes;
/// a longer one is refused with `LengthOverflow`.
pub proof fn law_text_length_limit(text: Seq<char>)
    ensures
        encode_utf8(text).len() <= 65535 <==> encode_text(text) is Ok,
        encode_utf8(text).len() > 65535 <==> encode_text(text) == Err::<Seq<u8>, CacheError>(
            CacheError::LengthOverflow,
        ),
{
}

} // verus!
