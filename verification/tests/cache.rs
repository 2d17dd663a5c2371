use std::collections::HashMap;
use ymir::cache::{
    decode_file_body, deserialize_payload, push_optional_text, push_text, read_header,
    read_optional_text, serialize_payload, CacheSerializer, Cursor, CursorUtil,
};
use ymir::config::Cache;
use ymir::error::CacheError;
use ymir::huffman::{huffman_decode, huffman_encode};
use ymir::projects::{Project, ProjectLanguage};
use ymir::records::VERSION;
use ymir::utils::GitInfo;

fn counts(files: u32, lines: u32, code: u32, comments: u32, blanks: u32) -> ProjectLanguage {
    ProjectLanguage { files, lines, code, comments, blanks }
}

fn example_project() -> Project {
    let mut languages = HashMap::new();
    languages.insert(1u8, counts(3, 120, 100, 10, 10));
    Project {
        path: "/home/u/proj".to_string(),
        size: 4096,
        git_info: GitInfo {
            remote_url: Some("git@example.com:u/proj.git".to_string()),
            init_date: 1000,
            last_commit_date: 2000,
            last_commit_msg: Some("init".to_string()),
            commit_count: 5,
        },
        languages,
        languages_total: counts(3, 120, 100, 10, 10),
    }
}

fn example_bytes() -> Vec<u8> {
    let mut bytes = Vec::new();
    bytes.extend([12, 0]);
    bytes.extend(b"/home/u/proj");
    bytes.extend([0x00, 0x10, 0, 0, 0, 0, 0, 0]);
    bytes.extend([26, 0]);
    bytes.extend(b"git@example.com:u/proj.git");
    bytes.extend([0xe8, 0x03, 0, 0]);
    bytes.extend([0xd0, 0x07, 0, 0]);
    bytes.extend([4, 0]);
    bytes.extend(b"init");
    bytes.extend([5, 0, 0, 0]);
    bytes.extend([1, 0]);
    bytes.push(1);
    bytes.extend([3, 0, 0, 0, 120, 0, 0, 0, 100, 0, 0, 0, 10, 0, 0, 0, 10, 0, 0, 0]);
    bytes.extend([3, 0, 0, 0, 120, 0, 0, 0, 100, 0, 0, 0, 10, 0, 0, 0, 10, 0, 0, 0]);
    bytes
}

fn plain_project(path: &str, size: u64) -> Project {
    Project {
        path: path.to_string(),
        size,
        git_info: GitInfo::default(),
        languages: HashMap::new(),
        languages_total: counts(0, 0, 0, 0, 0),
    }
}

fn varied_projects() -> Vec<Project> {
    let mut list = vec![example_project(), plain_project("", 0)];
    let mut many = HashMap::new();
    for key in 0..=255u8 {
        many.insert(key, counts(key as u32, u32::MAX, 7, key as u32 * 1000, 0));
    }
    list.push(Project {
        path: "/srv/größe/プロジェクト".to_string(),
        size: u64::MAX,
        git_info: GitInfo {
            remote_url: None,
            init_date: u32::MAX,
            last_commit_date: 0,
            last_commit_msg: Some("fix: naïve café ☕".to_string()),
            commit_count: u32::MAX,
        },
        languages: many,
        languages_total: counts(1, 2, 3, 4, 5),
    });
    for i in 0..40u64 {
        let mut project = plain_project(&format!("/work/project-{i}"), i * 1_000_003);
        project.git_info.remote_url = Some(format!("https://example.org/user{i}/repo{i}"));
        project.git_info.commit_count = i as u32;
        project.languages.insert((i * 5) as u8, counts(i as u32, 1, 2, 3, 4));
        list.push(project);
    }
    list
}

fn read_cache(file: &[u8]) -> Result<Cache, CacheError> {
    let mut cursor = Cursor::new(file);
    Cache::deserialize(&mut cursor)
}

#[test]
fn example_record_has_the_documented_layout() {
    assert_eq!(example_project().serialize().unwrap(), example_bytes());
}

#[test]
fn example_record_is_read_back() {
    let bytes = example_bytes();
    let mut cursor = Cursor::new(&bytes);
    assert_eq!(Project::deserialize(&mut cursor).unwrap(), example_project());
    assert_eq!(cursor.position, bytes.len());
}

#[test]
fn example_record_survives_the_cache_file() {
    let cache = Cache { projects: vec![example_project()] };
    let file = cache.serialize().unwrap();
    assert_eq!(&file[..4], b"YMIR");
    assert_eq!(file[4], 4);
    assert_eq!(read_cache(&file).unwrap().projects, vec![example_project()]);
}

#[test]
fn cache_round_trip_of_varied_projects() {
    let cache = Cache { projects: varied_projects() };
    let file = cache.serialize().unwrap();
    let read = read_cache(&file).unwrap();
    assert_eq!(read.projects, cache.projects);
}

#[test]
fn empty_cache_round_trip() {
    // The payload of an empty cache is two zero bytes: one byte value only.
    let file = Cache::default().serialize().unwrap();
    assert_eq!(file, vec![b'Y', b'M', b'I', b'R', 4, 4, 0, 0, 1, 0x00, 0x80, 0b1100_0000]);
    assert!(read_cache(&file).unwrap().projects.is_empty());
}

#[test]
fn cursor_stands_behind_the_version_after_a_cache_is_read() {
    let file = Cache { projects: varied_projects() }.serialize().unwrap();
    let mut cursor = Cursor::new(&file);
    Cache::deserialize(&mut cursor).unwrap();
    assert_eq!(cursor.position, 5);
}

#[test]
fn altered_magic_is_a_magic_mismatch() {
    let file = Cache { projects: vec![example_project()] }.serialize().unwrap();
    for at in 0..4 {
        let mut altered = file.clone();
        altered[at] ^= 0x20;
        assert_eq!(read_cache(&altered).err(), Some(CacheError::MagicMismatch));
    }
}

#[test]
fn incremented_version_is_a_version_mismatch() {
    let mut file = Cache { projects: vec![example_project()] }.serialize().unwrap();
    file[4] += 1;
    assert_eq!(read_cache(&file).err(), Some(CacheError::VersionMismatch));
    file[4] = 0;
    assert_eq!(read_cache(&file).err(), Some(CacheError::VersionMismatch));
}

#[test]
fn header_is_checked_in_order() {
    assert_eq!(read_header(b""), Err(CacheError::TruncatedInput));
    assert_eq!(read_header(b"YMI"), Err(CacheError::TruncatedInput));
    assert_eq!(read_header(b"YMIX"), Err(CacheError::MagicMismatch));
    assert_eq!(read_header(b"ymir\x04"), Err(CacheError::MagicMismatch));
    assert_eq!(read_header(b"YMIR"), Err(CacheError::TruncatedInput));
    assert_eq!(read_header(b"YMIR\x05"), Err(CacheError::VersionMismatch));
    assert_eq!(read_header(b"YMIR\x04"), Ok(()));
    assert_eq!(VERSION, 4);
}

#[test]
fn file_that_ends_behind_the_version_is_truncated() {
    assert_eq!(read_cache(b"YMIR\x04").err(), Some(CacheError::TruncatedInput));
    assert_eq!(read_cache(b"YMIR\x04\x00").err(), Some(CacheError::TruncatedInput));
}

#[test]
fn every_shortened_file_is_refused() {
    let file = Cache { projects: vec![example_project(), plain_project("/x", 1)] }
        .serialize()
        .unwrap();
    for len in 0..file.len() {
        assert!(read_cache(&file[..len]).is_err(), "a file cut to {len} bytes was read");
    }
}

#[test]
fn failed_read_leaves_nothing_to_read() {
    let file = b"YMIX\x04rest".to_vec();
    let mut cursor = Cursor::new(&file);
    assert!(Cache::deserialize(&mut cursor).is_err());
    assert_eq!(cursor.position, file.len());
}

#[test]
fn encoding_does_not_depend_on_the_order_of_insertion() {
    let keys: Vec<u8> = (0..200u8).collect();
    let mut forward = HashMap::new();
    for key in keys.iter() {
        forward.insert(*key, counts(*key as u32, 1, 2, 3, 4));
    }
    let mut backward = HashMap::with_capacity(4096);
    for key in keys.iter().rev() {
        backward.insert(*key, counts(*key as u32, 1, 2, 3, 4));
    }
    assert_eq!(forward.serialize().unwrap(), backward.serialize().unwrap());
    let mut first = example_project();
    first.languages = forward;
    let mut second = example_project();
    second.languages = backward;
    let a = Cache { projects: vec![first] }.serialize().unwrap();
    let b = Cache { projects: vec![second] }.serialize().unwrap();
    assert_eq!(a, b);
}

#[test]
fn encoding_the_same_cache_twice_gives_the_same_bytes() {
    let cache = Cache { projects: varied_projects() };
    assert_eq!(cache.serialize().unwrap(), cache.serialize().unwrap());
}

#[test]
fn languages_are_written_in_rising_order_of_their_keys() {
    let mut languages = HashMap::new();
    languages.insert(200u8, counts(1, 0, 0, 0, 0));
    languages.insert(3u8, counts(2, 0, 0, 0, 0));
    languages.insert(17u8, counts(3, 0, 0, 0, 0));
    let bytes = languages.serialize().unwrap();
    assert_eq!(bytes.len(), 2 + 3 * 21);
    assert_eq!(&bytes[..2], &[3, 0]);
    assert_eq!((bytes[2], bytes[3]), (3, 2));
    assert_eq!((bytes[23], bytes[24]), (17, 3));
    assert_eq!((bytes[44], bytes[45]), (200, 1));
}

#[test]
fn later_entry_of_a_key_replaces_an_earlier_one() {
    let mut bytes = vec![2, 0];
    bytes.push(9);
    bytes.extend(counts(1, 1, 1, 1, 1).serialize().unwrap());
    bytes.push(9);
    bytes.extend(counts(2, 2, 2, 2, 2).serialize().unwrap());
    let mut cursor = Cursor::new(&bytes);
    let languages = HashMap::<u8, ProjectLanguage>::deserialize(&mut cursor).unwrap();
    assert_eq!(languages.len(), 1);
    assert_eq!(languages[&9], counts(2, 2, 2, 2, 2));
}

#[test]
fn string_of_65535_bytes_is_written() {
    let project = plain_project(&"a".repeat(65535), 0);
    let bytes = project.serialize().unwrap();
    assert_eq!(&bytes[..2], &[0xff, 0xff]);
    let mut cursor = Cursor::new(&bytes);
    assert_eq!(Project::deserialize(&mut cursor).unwrap(), project);
}

#[test]
fn string_of_65536_bytes_is_a_length_overflow() {
    let project = plain_project(&"a".repeat(65536), 0);
    assert_eq!(project.serialize(), Err(CacheError::LengthOverflow));
    assert_eq!(Cache { projects: vec![project] }.serialize(), Err(CacheError::LengthOverflow));
}

#[test]
fn length_is_counted_in_bytes_not_in_characters() {
    // 21846 characters of three bytes each are 65538 bytes.
    let mut info = GitInfo::default();
    info.last_commit_msg = Some("€".repeat(21846));
    assert_eq!(info.serialize(), Err(CacheError::LengthOverflow));
    info.last_commit_msg = Some("€".repeat(21845));
    assert_eq!(info.serialize().unwrap().len(), 2 + 4 + 4 + 2 + 65535 + 4);
    info.remote_url = Some("x".repeat(65536));
    assert_eq!(info.serialize(), Err(CacheError::LengthOverflow));
}

#[test]
fn text_helpers_leave_the_buffer_alone_on_overflow() {
    let mut buffer = vec![1, 2, 3];
    assert_eq!(push_text(&mut buffer, &"a".repeat(65536)), Err(CacheError::LengthOverflow));
    assert_eq!(buffer, vec![1, 2, 3]);
    assert_eq!(push_text(&mut buffer, "hi"), Ok(()));
    assert_eq!(buffer, vec![1, 2, 3, 2, 0, b'h', b'i']);
    assert_eq!(push_optional_text(&mut buffer, &None), Ok(()));
    assert_eq!(buffer, vec![1, 2, 3, 2, 0, b'h', b'i', 0, 0]);
}

#[test]
fn more_projects_than_a_u16_counts_are_a_length_overflow() {
    let mut projects = Vec::new();
    for _ in 0..65536 {
        projects.push(plain_project("p", 0));
    }
    assert_eq!(serialize_payload(&projects), Err(CacheError::LengthOverflow));
    projects.pop();
    let payload = serialize_payload(&projects).unwrap();
    assert_eq!(&payload[..2], &[0xff, 0xff]);
    assert_eq!(deserialize_payload(&payload).unwrap().len(), 65535);
}

#[test]
fn present_but_empty_string_is_read_back_as_absent() {
    let mut info = GitInfo::default();
    info.remote_url = Some(String::new());
    let bytes = info.serialize().unwrap();
    let mut cursor = Cursor::new(&bytes);
    assert_eq!(GitInfo::deserialize(&mut cursor).unwrap().remote_url, None);
}

#[test]
fn bytes_that_are_not_utf8_are_refused() {
    let mut bytes = vec![2, 0, 0xff, 0xfe];
    bytes.extend([0; 8]);
    let mut cursor = Cursor::new(&bytes);
    assert_eq!(Project::deserialize(&mut cursor).err(), Some(CacheError::InvalidUtf8));
    assert_eq!(cursor.position, bytes.len());

    // an invalid remote is refused too, not read as absent
    let mut info = vec![1, 0, 0x80];
    info.extend([0; 14]);
    let mut cursor = Cursor::new(&info);
    assert_eq!(GitInfo::deserialize(&mut cursor).err(), Some(CacheError::InvalidUtf8));

    let mut cursor = Cursor::new(&[3, 0, 0xe2, 0x82]);
    assert_eq!(read_optional_text(&mut cursor).err(), Some(CacheError::TruncatedInput));
    let mut cursor = Cursor::new(&[2, 0, 0xe2, 0x82]);
    assert_eq!(read_optional_text(&mut cursor).err(), Some(CacheError::InvalidUtf8));
    let mut cursor = Cursor::new(&[3, 0, 0xe2, 0x82, 0xac, 7]);
    assert_eq!(read_optional_text(&mut cursor).unwrap(), Some("€".to_string()));
    assert_eq!(cursor.position, 5);
}

#[test]
fn invalid_utf8_inside_a_cache_file_is_refused() {
    let mut payload = vec![1, 0, 1, 0, 0xc0];
    payload.extend([0; 60]);
    let mut file = b"YMIR\x04".to_vec();
    file.extend(huffman_encode(&payload).unwrap());
    assert_eq!(read_cache(&file).err(), Some(CacheError::InvalidUtf8));
}

#[test]
fn records_that_are_cut_short_are_truncated() {
    let bytes = example_bytes();
    for len in 0..bytes.len() {
        let mut cursor = Cursor::new(&bytes[..len]);
        assert_eq!(
            Project::deserialize(&mut cursor).err(),
            Some(CacheError::TruncatedInput),
            "a record cut to {len} bytes"
        );
        assert_eq!(cursor.position, len);
    }
}

#[test]
fn payload_with_fewer_projects_than_counted_is_truncated() {
    let mut payload = vec![2, 0];
    payload.extend(example_bytes());
    assert_eq!(deserialize_payload(&payload).err(), Some(CacheError::TruncatedInput));
    assert_eq!(deserialize_payload(&[]).err(), Some(CacheError::TruncatedInput));
    assert_eq!(deserialize_payload(&[0]).err(), Some(CacheError::TruncatedInput));
}

#[test]
fn what_follows_the_last_project_is_not_looked_at() {
    let mut payload = vec![1, 0];
    payload.extend(example_bytes());
    payload.extend([0xff, 0xff, 0xff]);
    assert_eq!(deserialize_payload(&payload).unwrap(), vec![example_project()]);
    assert!(deserialize_payload(&[0, 0, 9, 9]).unwrap().is_empty());
}

#[test]
fn body_of_a_file_is_decompressed_and_read() {
    let mut payload = vec![1, 0];
    payload.extend(example_bytes());
    let compressed = huffman_encode(&payload).unwrap();
    assert_eq!(huffman_decode(&compressed).unwrap(), payload);
    assert_eq!(decode_file_body(&compressed).unwrap(), vec![example_project()]);
    assert_eq!(decode_file_body(&[9]).err(), Some(CacheError::TruncatedInput));
    assert_eq!(
        decode_file_body(&[4, 0, 0, 17, 0, 0]).err(),
        Some(CacheError::CodeLengthOverflow)
    );
}

/// A project in whose strings the first of `letters` letters occurs once
/// and each further one twice as often as the one before.
fn skewed_project(letters: u8) -> Project {
    let mut text = String::from("A");
    let mut times = 1usize;
    for value in 1..letters {
        let letter = (b'A' + value) as char;
        text.push_str(&letter.to_string().repeat(times));
        times *= 2;
    }
    let mut chunks = text.as_bytes().chunks(65535).map(|c| String::from_utf8(c.to_vec()).unwrap());
    let mut project = plain_project(&chunks.next().unwrap(), 0);
    project.git_info.remote_url = chunks.next();
    project.git_info.last_commit_msg = chunks.next();
    assert!(chunks.next().is_none());
    project
}

#[test]
fn payload_too_skewed_for_sixteen_bits_is_a_code_length_overflow() {
    let cache = Cache { projects: vec![skewed_project(18)] };
    let payload = serialize_payload(&cache.projects).unwrap();
    assert_eq!(huffman_encode(&payload), Err(CacheError::CodeLengthOverflow));
    assert_eq!(cache.serialize(), Err(CacheError::CodeLengthOverflow));
}

#[test]
fn skewed_payload_within_sixteen_bits_round_trip() {
    for letters in [3, 8, 12, 15] {
        let cache = Cache { projects: vec![skewed_project(letters)] };
        let file = cache.serialize().unwrap();
        assert_eq!(read_cache(&file).unwrap().projects, cache.projects);
    }
}

#[test]
fn cursor_reads_little_endian_integers() {
    let bytes = [
        0x01, 0x02, 0x03, 0x04, 0x05, 0x06, 0x07, 0x08, 0x09, 0x0a, 0x0b, 0x0c, 0x0d, 0x0e, 0x0f,
        b'o', b'k',
    ];
    let mut cursor = Cursor::new(&bytes);
    assert_eq!(cursor.read_u8(), Ok(0x01));
    assert_eq!(cursor.read_u16(), Ok(0x0302));
    assert_eq!(cursor.read_u32(), Ok(0x07060504));
    assert_eq!(cursor.read_u64(), Ok(0x0f0e0d0c0b0a0908));
    assert_eq!(cursor.read_string(2), Ok("ok".to_string()));
    assert_eq!(cursor.position, bytes.len());
    assert_eq!(cursor.read_string(0), Ok(String::new()));
    assert_eq!(cursor.read_u8(), Err(CacheError::TruncatedInput));
}

#[test]
fn cursor_keeps_its_buffer_and_counts_what_it_read() {
    let bytes = [0x34, 0x12, 0xff];
    let mut cursor = Cursor::new(&bytes);
    assert_eq!(cursor.read_u16(), Ok(0x1234));
    assert_eq!(cursor.position, 2);
    assert_eq!(cursor.data, &bytes);

    let mut record = example_bytes();
    let len = record.len();
    record.extend([9, 9, 9]);
    let mut cursor = Cursor::new(&record);
    assert_eq!(Project::deserialize(&mut cursor).unwrap(), example_project());
    assert_eq!(cursor.position, len);
    assert_eq!(len, 111);
    assert_eq!(cursor.data, &record[..]);

    let summary = [0, 0, 232, 3, 0, 0, 208, 7, 0, 0, 0, 0, 5, 0, 0, 0];
    let mut cursor = Cursor::new(&summary);
    let info = GitInfo::deserialize(&mut cursor).unwrap();
    assert_eq!(
        info,
        GitInfo {
            remote_url: None,
            init_date: 1000,
            last_commit_date: 2000,
            last_commit_msg: None,
            commit_count: 5
        }
    );
    assert_eq!(cursor.position, 16);
}

#[test]
fn cursor_that_cannot_read_moves_to_the_end() {
    let bytes = [1, 2, 3];
    let mut cursor = Cursor::new(&bytes);
    assert_eq!(cursor.read_u32(), Err(CacheError::TruncatedInput));
    assert_eq!(cursor.position, 3);
    let mut cursor = Cursor::new(&bytes);
    assert_eq!(cursor.read_u64(), Err(CacheError::TruncatedInput));
    let mut cursor = Cursor::new(&bytes);
    assert_eq!(cursor.read_string(4), Err(CacheError::TruncatedInput));
    let mut cursor = Cursor { data: &bytes, position: 10 };
    assert_eq!(cursor.read_u8(), Err(CacheError::TruncatedInput));
    assert_eq!(cursor.advance(0), Some(3));
    let mut cursor = Cursor::new(&bytes);
    assert_eq!(cursor.advance(2), Some(0));
    assert_eq!(cursor.advance(2), None);
    assert_eq!(cursor.position, 3);
}

#[test]
fn line_counts_take_twenty_bytes() {
    let bytes = counts(1, 0x0102, 0x01020304, u32::MAX, 0).serialize().unwrap();
    assert_eq!(
        bytes,
        vec![1, 0, 0, 0, 2, 1, 0, 0, 4, 3, 2, 1, 0xff, 0xff, 0xff, 0xff, 0, 0, 0, 0]
    );
    let mut cursor = Cursor::new(&bytes);
    assert_eq!(
        ProjectLanguage::deserialize(&mut cursor).unwrap(),
        counts(1, 0x0102, 0x01020304, u32::MAX, 0)
    );
}

#[test]
fn git_summary_without_strings() {
    let info = GitInfo { init_date: 7, last_commit_date: 8, commit_count: 9, ..GitInfo::default() };
    let bytes = info.serialize().unwrap();
    assert_eq!(bytes, vec![0, 0, 7, 0, 0, 0, 8, 0, 0, 0, 0, 0, 9, 0, 0, 0]);
    let mut cursor = Cursor::new(&bytes);
    assert_eq!(GitInfo::deserialize(&mut cursor).unwrap(), info);
}
