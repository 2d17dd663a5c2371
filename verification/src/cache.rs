//! Writing the records to bytes and reading them back.

use crate::config::Cache;
use crate::error::CacheError;
use crate::huffman::{huffman_decode, huffman_encode};
use crate::projects::{project_views, Project, ProjectLanguage, ProjectView};
use crate::records::{
    check_header, decode_body, decode_cache, decode_git_info, decode_language,
    decode_language_entries,
    decode_languages, decode_optional_text, decode_payload, decode_project, decode_projects,
    encode_cache, encode_git_info, encode_language, encode_languages, encode_optional_text,
    encode_payload, encode_project, encode_projects, encode_text, joined, language_entries, magic,
    take_string, take_u16, take_u32, take_u64, take_u8, VERSION,
};
use crate::utils::{optional_chars, GitInfo, GitInfoView};
use crate::wire::{
    bytes_of, le_u16, push_bytes, push_u16, push_u32, push_u64, u16_at, u32_at, u64_at,
};
use std::collections::HashMap;
use vstd::prelude::*;
use vstd::slice::{slice_subrange, slice_to_vec};
use vstd::utf8::{decode_utf8, valid_utf8};

verus! {

/// A reading position in a buffer of bytes.
pub struct Cursor<'a> {
    /// The buffer that is read.
    pub data: &'a [u8],
    /// The index of the next byte to read.
    pub position: usize,
}

/// What a read gave, together with what is left to read.
pub open spec fn read_as<T>(value: Result<T, CacheError>, unread: Seq<u8>) -> Result<
    (T, Seq<u8>),
    CacheError,
> {
    match value {
        Ok(v) => Ok((v, unread)),
        Err(e) => Err(e),
    }
}

/// What a read gave, as its view, together with what is left to read.
pub open spec fn parsed_as<T: View>(value: Result<T, CacheError>, unread: Seq<u8>) -> Result<
    (T::V, Seq<u8>),
    CacheError,
> {
    match value {
        Ok(v) => Ok((v@, unread)),
        Err(e) => Err(e),
    }
}

/// The views of the projects that were read, where projects were read.
pub open spec fn views_of(projects: Result<Vec<Project>, CacheError>) -> Result<
    Seq<ProjectView>,
    CacheError,
> {
    match projects {
        Ok(list) => Ok(project_views(list@)),
        Err(e) => Err(e),
    }
}

/// `String::from_utf8` of std: the string that the bytes encode, and `None`
/// where the bytes are not UTF-8.
#[verifier::external_body]
fn string_from_utf8(bytes: Vec<u8>) -> (text: Option<String>)
    ensures
        match text {
            Some(s) => valid_utf8(bytes@) && s@ == decode_utf8(bytes@),
            None => !valid_utf8(bytes@),
        },
{
    match String::from_utf8(bytes) {
        Ok(text) => Some(text),
        Err(_) => None,
    }
}

impl<'a> Cursor<'a> {
    /// The bytes from the reading position on.
    pub open spec fn unread_bytes(&self) -> Seq<u8> {
        if self.position <= self.data@.len() {
            self.data@.skip(self.position as int)
        } else {
            Seq::empty()
        }
    }

    /// A cursor at the start of `data`.
    pub fn new(data: &'a [u8]) -> (cursor: Self)
        ensures
            cursor.data == data,
            cursor.position == 0,
            cursor.unread_bytes() == data@,
    {
        let cursor = Cursor { data, position: 0 };
        proof {
            assert(data@.skip(0) =~= data@);
        }
        cursor
    }

    /// Moves the cursor to the end of its buffer.
    pub fn exhaust(&mut self)
        ensures
            final(self).data == old(self).data,
            final(self).position == final(self).data@.len(),
            final(self).unread_bytes().len() == 0,
    {
        self.position = self.data.len();
    }

    /// Moves the cursor over `count` bytes and gives the index where they
    /// start; where fewer are left, moves it to the end and gives `None`.
    pub fn advance(&mut self, count: usize) -> (start: Option<usize>)
        ensures
            final(self).data == old(self).data,
            final(self).position <= final(self).data@.len(),
            start is Some <==> old(self).unread_bytes().len() >= count,
            start is Some ==> final(self).position == start->0 + count,
            start is Some ==> old(self).data@.subrange(start->0 as int, start->0 + count) == old(
                self,
            ).unread_bytes().subrange(0, count as int),
            start is Some ==> final(self).unread_bytes() == old(self).unread_bytes().skip(
                count as int,
            ),
            start is None ==> final(self).unread_bytes().len() == 0,
    {
        let len: usize = self.data.len();
        if self.position > len {
            self.position = len;
            proof {
                assert(self.data@.skip(len as int) =~= Seq::<u8>::empty());
            }
        }
        if len - self.position >= count {
            let at: usize = self.position;
            self.position = at + count;
            proof {
                let data = self.data@;
                assert(data.subrange(at as int, at + count) =~= data.skip(at as int).subrange(
                    0,
                    count as int,
                ));
                assert(data.skip(at + count) =~= data.skip(at as int).skip(count as int));
            }
            Some(at)
        } else {
            self.position = len;
            proof {
                assert(self.data@.skip(len as int).len() == 0);
            }
            None
        }
    }
}

/// Reading the fixed-width integers and the strings of the layout.
///
/// A read that succeeds moves the cursor behind what it read. A read that
/// fails leaves nothing to read. Either way the cursor keeps its buffer, and
/// its position is inside the buffer or at its end.
pub trait CursorUtil {
    /// The bytes that are left to read.
    spec fn unread(&self) -> Seq<u8>;

    /// The buffer that is read, with the bytes that are read already.
    spec fn source(&self) -> &[u8];

    /// How many bytes of the buffer the reading position has behind it.
    spec fn offset(&self) -> nat;

    /// Reads one byte.
    fn read_u8(&mut self) -> (value: Result<u8, CacheError>)
        ensures
            read_as(value, final(self).unread()) == take_u8(old(self).unread()),
            value is Err ==> final(self).unread().len() == 0,
            final(self).source() == old(self).source(),
            final(self).offset() <= final(self).source()@.len(),
            final(self).offset() + final(self).unread().len() == final(self).source()@.len(),
    ;

    /// Reads a `u16`, low byte first.
    fn read_u16(&mut self) -> (value: Result<u16, CacheError>)
        ensures
            read_as(value, final(self).unread()) == take_u16(old(self).unread()),
            value is Err ==> final(self).unread().len() == 0,
            final(self).source() == old(self).source(),
            final(self).offset() <= final(self).source()@.len(),
            final(self).offset() + final(self).unread().len() == final(self).source()@.len(),
    ;

    /// Reads a `u32`, lowest byte first.
    fn read_u32(&mut self) -> (value: Result<u32, CacheError>)
        ensures
            read_as(value, final(self).unread()) == take_u32(old(self).unread()),
            value is Err ==> final(self).unread().len() == 0,
            final(self).source() == old(self).source(),
            final(self).offset() <= final(self).source()@.len(),
            final(self).offset() + final(self).unread().len() == final(self).source()@.len(),
    ;

    /// Reads a `u64`, lowest byte first.
    fn read_u64(&mut self) -> (value: Result<u64, CacheError>)
        ensures
            read_as(value, final(self).unread()) == take_u64(old(self).unread()),
            value is Err ==> final(self).unread().len() == 0,
            final(self).source() == old(self).source(),
            final(self).offset() <= final(self).source()@.len(),
            final(self).offset() + final(self).unread().len() == final(self).source()@.len(),
    ;

    /// Reads a string of `len` bytes: `TruncatedInput` where fewer are left,
    /// `InvalidUtf8` where they are not UTF-8.
    fn read_string(&mut self, len: usize) -> (value: Result<String, CacheError>)
        ensures
            parsed_as(value, final(self).unread()) == take_string(old(self).unread(), len as nat),
            value is Err ==> final(self).unread().len() == 0,
            final(self).source() == old(self).source(),
            final(self).offset() <= final(self).source()@.len(),
            final(self).offset() + final(self).unread().len() == final(self).source()@.len(),
    ;
}

impl<'a> CursorUtil for Cursor<'a> {
    open spec fn unread(&self) -> Seq<u8> {
        self.unread_bytes()
    }

    open spec fn source(&self) -> &[u8] {
        self.data
    }

    open spec fn offset(&self) -> nat {
        self.position as nat
    }

    fn read_u8(&mut self) -> (value: Result<u8, CacheError>) {
        match self.advance(1) {
            Some(at) => Ok(self.data[at]),
            None => Err(CacheError::TruncatedInput),
        }
    }

    fn read_u16(&mut self) -> (value: Result<u16, CacheError>) {
        match self.advance(2) {
            Some(at) => Ok(u16_at(self.data, at)),
            None => Err(CacheError::TruncatedInput),
        }
    }

    fn read_u32(&mut self) -> (value: Result<u32, CacheError>) {
        match self.advance(4) {
            Some(at) => Ok(u32_at(self.data, at)),
            None => Err(CacheError::TruncatedInput),
        }
    }

    fn read_u64(&mut self) -> (value: Result<u64, CacheError>) {
        match self.advance(8) {
            Some(at) => Ok(u64_at(self.data, at)),
            None => Err(CacheError::TruncatedInput),
        }
    }

    fn read_string(&mut self, len: usize) -> (value: Result<String, CacheError>) {
        match self.advance(len) {
            Some(at) => {
                let bytes = slice_to_vec(slice_subrange(self.data, at, at + len));
                match string_from_utf8(bytes) {
                    Some(text) => Ok(text),
                    None => {
                        self.exhaust();
                        Err(CacheError::InvalidUtf8)
                    },
                }
            },
            None => Err(CacheError::TruncatedInput),
        }
    }
}

/// Values that have a place in the cache file.
pub trait CacheSerializer: Sized + View {
    /// The bytes of a value, or why it has none.
    spec fn encoding(value: Self::V) -> Result<Seq<u8>, CacheError>;

    /// The value at the start of the input and the input behind it, or why
    /// no value stands there.
    spec fn decoding(input: Seq<u8>) -> Result<(Self::V, Seq<u8>), CacheError>;

    /// Writes the value to bytes.
    fn serialize(&self) -> (bytes: Result<Vec<u8>, CacheError>)
        ensures
            bytes_of(bytes) == Self::encoding(self@),
    ;

    /// Reads a value at the cursor and moves the cursor behind it. A read
    /// that fails leaves nothing to read. Either way the cursor keeps its
    /// buffer, and its position is inside the buffer or at its end.
    fn deserialize(cursor: &mut Cursor) -> (value: Result<Self, CacheError>)
        ensures
            parsed_as(value, final(cursor).unread_bytes()) == Self::decoding(
                old(cursor).unread_bytes(),
            ),
            value is Err ==> final(cursor).unread_bytes().len() == 0,
            final(cursor).data == old(cursor).data,
            final(cursor).position <= final(cursor).data@.len(),
            final(cursor).data@.len() == final(cursor).position + final(
                cursor
            ).unread_bytes().len(),
    ;
}

/// Appends a string: the number of its bytes, then the bytes. Where the
/// string has more than 65535 bytes nothing is appended.
pub fn push_text(buffer: &mut Vec<u8>, text: &str) -> (done: Result<(), CacheError>)
    ensures
        match done {
            Ok(_) => joined(Ok(old(buffer)@), encode_text(text@)) == Ok::<Seq<u8>, CacheError>(
                final(buffer)@,
            ),
            Err(e) => encode_text(text@) == Err::<Seq<u8>, CacheError>(e) && final(buffer)@ == old(
                buffer,
            )@,
        },
{
    let bytes = text.as_bytes();
    if bytes.len() > 65535 {
        return Err(CacheError::LengthOverflow);
    }
    push_u16(buffer, bytes.len() as u16);
    push_bytes(buffer, bytes);
    proof {
        assert(final(buffer)@ =~= old(buffer)@ + (le_u16(bytes@.len() as u16) + bytes@));
    }
    Ok(())
}

/// Appends a string that may be absent: length 0 where it is.
pub fn push_optional_text(buffer: &mut Vec<u8>, text: &Option<String>) -> (done: Result<
    (),
    CacheError,
>)
    ensures
        match done {
            Ok(_) => joined(Ok(old(buffer)@), encode_optional_text(optional_chars(*text)))
                == Ok::<Seq<u8>, CacheError>(final(buffer)@),
            Err(e) => encode_optional_text(optional_chars(*text)) == Err::<
                Seq<u8>,
                CacheError,
            >(e) && final(buffer)@ == old(buffer)@,
        },
{
    match text {
        Some(s) => push_text(buffer, s.as_str()),
        None => {
            push_u16(buffer, 0);
            Ok(())
        },
    }
}

/// Reads a string that may be absent: a length, and the string where the
/// length is not 0.
pub fn read_optional_text(cursor: &mut Cursor) -> (value: Result<Option<String>, CacheError>)
    ensures
        match value {
            Ok(text) => decode_optional_text(old(cursor).unread_bytes()) == Ok::<
                (Option<Seq<char>>, Seq<u8>),
                CacheError,
            >((optional_chars(text), final(cursor).unread_bytes())),
            Err(e) => decode_optional_text(old(cursor).unread_bytes()) == Err::<
                (Option<Seq<char>>, Seq<u8>),
                CacheError,
            >(e) && final(cursor).unread_bytes().len() == 0,
        },
        final(cursor).data == old(cursor).data,
        final(cursor).position <= final(cursor).data@.len(),
        final(cursor).position + final(cursor).unread_bytes().len() == final(cursor).data@.len(),
{
    let len = match cursor.read_u16() {
        Ok(len) => len,
        Err(e) => {
            return Err(e);
        },
    };
    if len == 0 {
        return Ok(None);
    }
    match cursor.read_string(len as usize) {
        Ok(text) => Ok(Some(text)),
        Err(e) => Err(e),
    }
}

impl CacheSerializer for ProjectLanguage {
    open spec fn encoding(value: ProjectLanguage) -> Result<Seq<u8>, CacheError> {
        Ok(encode_language(value))
    }

    open spec fn decoding(input: Seq<u8>) -> Result<(ProjectLanguage, Seq<u8>), CacheError> {
        decode_language(input)
    }

    fn serialize(&self) -> (bytes: Result<Vec<u8>, CacheError>) {
        let mut buffer: Vec<u8> = Vec::new();
        push_u32(&mut buffer, self.files);
        push_u32(&mut buffer, self.lines);
        push_u32(&mut buffer, self.code);
        push_u32(&mut buffer, self.comments);
        push_u32(&mut buffer, self.blanks);
        proof {
            assert(buffer@ =~= encode_language(*self));
        }
        Ok(buffer)
    }

    fn deserialize(cursor: &mut Cursor) -> (value: Result<Self, CacheError>) {
        match cursor.advance(20) {
            Some(at) => {
                let files = u32_at(cursor.data, at);
                let lines = u32_at(cursor.data, at + 4);
                let code = u32_at(cursor.data, at + 8);
                let comments = u32_at(cursor.data, at + 12);
                let blanks = u32_at(cursor.data, at + 16);
                proof {
                    let data = cursor.data@;
                    let input = old(cursor).unread_bytes();
                    let twenty = data.subrange(at as int, at + 20);
                    assert(twenty == input.subrange(0, 20));
                    assert(data.subrange(at as int, at + 4) =~= twenty.subrange(0, 4));
                    assert(data.subrange(at + 4, at + 8) =~= twenty.subrange(4, 8));
                    assert(data.subrange(at + 8, at + 12) =~= twenty.subrange(8, 12));
                    assert(data.subrange(at + 12, at + 16) =~= twenty.subrange(12, 16));
                    assert(data.subrange(at + 16, at + 20) =~= twenty.subrange(16, 20));
                    assert(input.subrange(0, 4) =~= twenty.subrange(0, 4));
                    assert(input.subrange(4, 8) =~= twenty.subrange(4, 8));
                    assert(input.subrange(8, 12) =~= twenty.subrange(8, 12));
                    assert(input.subrange(12, 16) =~= twenty.subrange(12, 16));
                    assert(input.subrange(16, 20) =~= twenty.subrange(16, 20));
                }
                Ok(ProjectLanguage { files, lines, code, comments, blanks })
            },
            None => Err(CacheError::TruncatedInput),
        }
    }
}

impl CacheSerializer for GitInfo {
    open spec fn encoding(value: GitInfoView) -> Result<Seq<u8>, CacheError> {
        encode_git_info(value)
    }

    open spec fn decoding(input: Seq<u8>) -> Result<(GitInfoView, Seq<u8>), CacheError> {
        decode_git_info(input)
    }

    fn serialize(&self) -> (bytes: Result<Vec<u8>, CacheError>) {
        let mut buffer: Vec<u8> = Vec::new();
        proof {
            assert(forall|tail: Seq<u8>| Seq::<u8>::empty() + tail =~= tail);
        }
        match push_optional_text(&mut buffer, &self.remote_url) {
            Ok(_) => {},
            Err(e) => {
                return Err(e);
            },
        }
        push_u32(&mut buffer, self.init_date);
        push_u32(&mut buffer, self.last_commit_date);
        match push_optional_text(&mut buffer, &self.last_commit_msg) {
            Ok(_) => {},
            Err(e) => {
                return Err(e);
            },
        }
        push_u32(&mut buffer, self.commit_count);
        Ok(buffer)
    }

    fn deserialize(cursor: &mut Cursor) -> (value: Result<Self, CacheError>) {
        let remote_url = match read_optional_text(cursor) {
            Ok(text) => text,
            Err(e) => {
                return Err(e);
            },
        };
        let init_date = match cursor.read_u32() {
            Ok(v) => v,
            Err(e) => {
                return Err(e);
            },
        };
        let last_commit_date = match cursor.read_u32() {
            Ok(v) => v,
            Err(e) => {
                return Err(e);
            },
        };
        let last_commit_msg = match read_optional_text(cursor) {
            Ok(text) => text,
            Err(e) => {
                return Err(e);
            },
        };
        let commit_count = match cursor.read_u32() {
            Ok(v) => v,
            Err(e) => {
                return Err(e);
            },
        };
        Ok(GitInfo { remote_url, init_date, last_commit_date, last_commit_msg, commit_count })
    }
}

impl CacheSerializer for HashMap<u8, ProjectLanguage> {
    open spec fn encoding(value: Map<u8, ProjectLanguage>) -> Result<Seq<u8>, CacheError> {
        encode_languages(value)
    }

    open spec fn decoding(input: Seq<u8>) -> Result<
        (Map<u8, ProjectLanguage>, Seq<u8>),
        CacheError,
    > {
        decode_languages(input)
    }

    /// The entries are written in rising order of their keys, whatever the
    /// order in which the map holds them.
    fn serialize(&self) -> (bytes: Result<Vec<u8>, CacheError>) {
        broadcast use vstd::std_specs::hash::group_hash_axioms;

        let count: usize = self.len();
        if count > 65535 {
            return Err(CacheError::LengthOverflow);
        }
        let mut buffer: Vec<u8> = Vec::new();
        push_u16(&mut buffer, count as u16);
        let ghost whole = le_u16(count as u16) + language_entries(self@, 0);
        let mut next: usize = 0;
        proof {
            assert(Seq::<u8>::empty() + le_u16(count as u16) =~= le_u16(count as u16));
        }
        while next < 256
            invariant
                next <= 256,
                buffer@ + language_entries(self@, next as int) == whole,
            decreases 256 - next,
        {
            let key: u8 = next as u8;
            let ghost before = buffer@;
            match self.get(&key) {
                Some(counts) => {
                    buffer.push(key);
                    push_u32(&mut buffer, counts.files);
                    push_u32(&mut buffer, counts.lines);
                    push_u32(&mut buffer, counts.code);
                    push_u32(&mut buffer, counts.comments);
                    push_u32(&mut buffer, counts.blanks);
                    proof {
                        assert(self@.contains_key(key) && self@[key] == *counts);
                        let entry = seq![key] + encode_language(*counts);
                        assert(buffer@ =~= before + entry);
                        assert((before + entry) + language_entries(self@, next + 1) =~= before + (
                        entry + language_entries(self@, next + 1)));
                    }
                },
                None => {
                    proof {
                        assert(!self@.contains_key(key));
                    }
                },
            }
            next += 1;
        }
        proof {
            assert(buffer@ + Seq::<u8>::empty() =~= buffer@);
        }
        Ok(buffer)
    }

    fn deserialize(cursor: &mut Cursor) -> (value: Result<Self, CacheError>) {
        broadcast use vstd::std_specs::hash::group_hash_axioms;

        let count: u16 = match cursor.read_u16() {
            Ok(count) => count,
            Err(e) => {
                return Err(e);
            },
        };
        let ghost start = cursor.unread_bytes();
        let mut languages: HashMap<u8, ProjectLanguage> = HashMap::new();
        let mut read: u16 = 0;
        while read < count
            invariant
                read <= count,
                cursor.data == old(cursor).data,
                cursor.position <= cursor.data@.len(),
                decode_language_entries(cursor.unread_bytes(), (count - read) as nat, languages@)
                    == decode_language_entries(start, count as nat, Map::empty()),
                decode_languages(old(cursor).unread_bytes()) == decode_language_entries(
                    start,
                    count as nat,
                    Map::empty(),
                ),
            decreases count - read,
        {
            let key: u8 = match cursor.read_u8() {
                Ok(key) => key,
                Err(e) => {
                    return Err(e);
                },
            };
            let counts = match ProjectLanguage::deserialize(cursor) {
                Ok(counts) => counts,
                Err(e) => {
                    return Err(e);
                },
            };
            languages.insert(key, counts);
            read += 1;
        }
        Ok(languages)
    }
}

impl CacheSerializer for Project {
    open spec fn encoding(value: ProjectView) -> Result<Seq<u8>, CacheError> {
        encode_project(value)
    }

    open spec fn decoding(input: Seq<u8>) -> Result<(ProjectView, Seq<u8>), CacheError> {
        decode_project(input)
    }

    fn serialize(&self) -> (bytes: Result<Vec<u8>, CacheError>) {
        let mut buffer: Vec<u8> = Vec::new();
        proof {
            assert(forall|tail: Seq<u8>| Seq::<u8>::empty() + tail =~= tail);
        }
        match push_text(&mut buffer, self.path.as_str()) {
            Ok(_) => {},
            Err(e) => {
                return Err(e);
            },
        }
        push_u64(&mut buffer, self.size);
        match self.git_info.serialize() {
            Ok(bytes) => push_bytes(&mut buffer, bytes.as_slice()),
            Err(e) => {
                return Err(e);
            },
        }
        match self.languages.serialize() {
            Ok(bytes) => push_bytes(&mut buffer, bytes.as_slice()),
            Err(e) => {
                return Err(e);
            },
        }
        match self.languages_total.serialize() {
            Ok(bytes) => push_bytes(&mut buffer, bytes.as_slice()),
            Err(e) => {
                return Err(e);
            },
        }
        Ok(buffer)
    }

    fn deserialize(cursor: &mut Cursor) -> (value: Result<Self, CacheError>) {
        let path_len: u16 = match cursor.read_u16() {
            Ok(len) => len,
            Err(e) => {
                return Err(e);
            },
        };
        let path = match cursor.read_string(path_len as usize) {
            Ok(path) => path,
            Err(e) => {
                return Err(e);
            },
        };
        let size: u64 = match cursor.read_u64() {
            Ok(size) => size,
            Err(e) => {
                return Err(e);
            },
        };
        let git_info = match GitInfo::deserialize(cursor) {
            Ok(info) => info,
            Err(e) => {
                return Err(e);
            },
        };
        let languages = match HashMap::<u8, ProjectLanguage>::deserialize(cursor) {
            Ok(languages) => languages,
            Err(e) => {
                return Err(e);
            },
        };
        let languages_total = match ProjectLanguage::deserialize(cursor) {
            Ok(total) => total,
            Err(e) => {
                return Err(e);
            },
        };
        Ok(Project { path, size, git_info, languages, languages_total })
    }
}

/// Writes the payload of a cache: the number of projects, then the
/// projects.
pub fn serialize_payload(projects: &Vec<Project>) -> (bytes: Result<Vec<u8>, CacheError>)
    ensures
        bytes_of(bytes) == encode_payload(project_views(projects@)),
{
    let count: usize = projects.len();
    if count > 65535 {
        return Err(CacheError::LengthOverflow);
    }
    let ghost views = project_views(projects@);
    let mut buffer: Vec<u8> = Vec::new();
    push_u16(&mut buffer, count as u16);
    let mut i: usize = 0;
    proof {
        assert(Seq::<u8>::empty() + le_u16(count as u16) =~= le_u16(count as u16));
        assert(views.skip(0) =~= views);
    }
    while i < count
        invariant
            i <= count,
            count == projects@.len(),
            views == project_views(projects@),
            joined(Ok(buffer@), encode_projects(views.skip(i as int))) == encode_payload(views),
        decreases count - i,
    {
        let ghost before = buffer@;
        let ghost rest = encode_projects(views.skip(i + 1));
        proof {
            assert(views.skip(i as int)[0] == projects@[i as int]@);
            assert(views.skip(i as int).skip(1) =~= views.skip(i + 1));
        }
        match projects[i].serialize() {
            Ok(bytes) => {
                push_bytes(&mut buffer, bytes.as_slice());
                proof {
                    if rest is Ok {
                        assert((before + bytes@) + rest->Ok_0 =~= before + (bytes@ + rest->Ok_0));
                    }
                }
            },
            Err(e) => {
                return Err(e);
            },
        }
        i += 1;
    }
    proof {
        assert(views.skip(count as int) =~= Seq::<ProjectView>::empty());
        assert(buffer@ + Seq::<u8>::empty() =~= buffer@);
    }
    Ok(buffer)
}

/// Reads the payload of a cache: the number of projects, then that many
/// projects. What follows the last project is not looked at.
pub fn deserialize_payload(payload: &[u8]) -> (projects: Result<Vec<Project>, CacheError>)
    ensures
        views_of(projects) == decode_payload(payload@),
{
    let mut cursor = Cursor::new(payload);
    let count: u16 = match cursor.read_u16() {
        Ok(count) => count,
        Err(e) => {
            return Err(e);
        },
    };
    let ghost start = cursor.unread_bytes();
    let mut projects: Vec<Project> = Vec::new();
    let mut read: u16 = 0;
    proof {
        assert(project_views(projects@) =~= Seq::<ProjectView>::empty());
    }
    while read < count
        invariant
            read <= count,
            decode_projects(
                cursor.unread_bytes(),
                (count - read) as nat,
                project_views(projects@),
            ) == decode_projects(start, count as nat, Seq::empty()),
            take_u16(payload@) == Ok::<(u16, Seq<u8>), CacheError>((count, start)),
        decreases count - read,
    {
        let ghost before = projects@;
        let project = match Project::deserialize(&mut cursor) {
            Ok(project) => project,
            Err(e) => {
                return Err(e);
            },
        };
        projects.push(project);
        proof {
            assert(project_views(projects@) =~= project_views(before).push(project@));
        }
        read += 1;
    }
    Ok(projects)
}

impl CacheSerializer for Cache {
    open spec fn encoding(value: Seq<ProjectView>) -> Result<Seq<u8>, CacheError> {
        encode_cache(value)
    }

    open spec fn decoding(input: Seq<u8>) -> Result<(Seq<ProjectView>, Seq<u8>), CacheError> {
        decode_cache(input)
    }

    /// Writes a cache file: the signature `YMIR`, the version, and the
    /// payload compressed by `huffman_encode`.
    fn serialize(&self) -> (bytes: Result<Vec<u8>, CacheError>) {
        let payload = match serialize_payload(&self.projects) {
            Ok(payload) => payload,
            Err(e) => {
                return Err(e);
            },
        };
        let compressed = match huffman_encode(payload.as_slice()) {
            Ok(compressed) => compressed,
            Err(e) => {
                return Err(e);
            },
        };
        let mut file: Vec<u8> = Vec::new();
        file.push(0x59);
        file.push(0x4d);
        file.push(0x49);
        file.push(0x52);
        file.push(VERSION);
        push_bytes(&mut file, compressed.as_slice());
        proof {
            assert(file@ =~= magic() + seq![VERSION] + compressed@);
        }
        Ok(file)
    }

    /// Reads a cache file. A signature other than `YMIR` gives
    /// `MagicMismatch`, a version other than this library's gives
    /// `VersionMismatch`; an input that ends before either gives
    /// `TruncatedInput`. A cursor that read a cache stands behind the
    /// version byte.
    fn deserialize(cursor: &mut Cursor) -> (value: Result<Self, CacheError>) {
        let at: usize = match cursor.advance(0) {
            Some(at) => at,
            None => {
                return Err(CacheError::TruncatedInput);
            },
        };
        let file = slice_subrange(cursor.data, at, cursor.data.len());
        proof {
            assert(file@ =~= old(cursor).unread_bytes());
            assert(cursor.unread_bytes() =~= file@);
        }
        match read_header(file) {
            Ok(_) => {},
            Err(e) => {
                cursor.exhaust();
                return Err(e);
            },
        }
        let moved = cursor.advance(5);
        let compressed = slice_subrange(file, 5, file.len());
        let decoded = decode_file_body(compressed);
        match decoded {
            Ok(projects) => Ok(Cache { projects }),
            Err(e) => {
                cursor.exhaust();
                Err(e)
            },
        }
    }
}

/// Checks the signature and the version at the start of a cache file.
pub fn read_header(file: &[u8]) -> (checked: Result<(), CacheError>)
    ensures
        checked == check_header(file@),
{
    if file.len() < 4 {
        return Err(CacheError::TruncatedInput);
    }
    proof {
        let four = file@.subrange(0, 4);
        assert(four[0] == file@[0]);
        assert(four[1] == file@[1]);
        assert(four[2] == file@[2]);
        assert(four[3] == file@[3]);
        if four[0] == 0x59 && four[1] == 0x4d && four[2] == 0x49 && four[3] == 0x52 {
            assert(four =~= magic());
        }
    }
    if file[0] != 0x59 || file[1] != 0x4d || file[2] != 0x49 || file[3] != 0x52 {
        return Err(CacheError::MagicMismatch);
    }
    if file.len() < 5 {
        return Err(CacheError::TruncatedInput);
    }
    if file[4] != VERSION {
        return Err(CacheError::VersionMismatch);
    }
    Ok(())
}

/// Decompresses what follows the version byte of a cache file and reads the
/// projects from it.
pub fn decode_file_body(compressed: &[u8]) -> (projects: Result<Vec<Project>, CacheError>)
    ensures
        views_of(projects) == decode_body(compressed@),
{
    let payload = match huffman_decode(compressed) {
        Ok(payload) => payload,
        Err(e) => {
            return Err(e);
        },
    };
    deserialize_payload(payload.as_slice())
}

} // verus!
