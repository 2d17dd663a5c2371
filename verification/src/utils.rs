//! What is known of a project's git history.

use vstd::prelude::*;
use vstd::string::StrSliceExecFns;

verus! {

/// Whether a character is white space: one of the characters with the
/// Unicode property `White_Space`.
pub open spec fn is_space(c: char) -> bool {
    let code = c as u32;
    ||| 0x09 <= code <= 0x0d
    ||| code == 0x20
    ||| code == 0x85
    ||| code == 0xa0
    ||| code == 0x1680
    ||| 0x2000 <= code <= 0x200a
    ||| code == 0x2028
    ||| code == 0x2029
    ||| code == 0x202f
    ||| code == 0x205f
    ||| code == 0x3000
}

/// Where the line that starts at `from` ends: at the first line feed from
/// there on, or at the end of the text.
pub open spec fn line_end(text: Seq<char>, from: int) -> int
    decreases text.len() - from,
{
    if from >= text.len() {
        text.len() as int
    } else if text[from] == '\n' {
        from
    } else {
        line_end(text, from + 1)
    }
}

/// Where the text without its last line ending ends: a line feed ends a
/// line, and so does a carriage return with a line feed behind it.
pub open spec fn first_line_end(text: Seq<char>) -> int {
    let end = line_end(text, 0);
    if 0 < end < text.len() && text[end - 1] == '\r' {
        end - 1
    } else {
        end
    }
}

/// The index of the first character from `from` on, and before `end`, that
/// is not white space; `end` where there is none.
pub open spec fn skip_spaces(text: Seq<char>, from: int, end: int) -> int
    decreases end - from,
{
    if from >= end || from < 0 || end > text.len() {
        end
    } else if is_space(text[from]) {
        skip_spaces(text, from + 1, end)
    } else {
        from
    }
}

/// The index behind the last character before `end`, and not before
/// `from`, that is not white space; `from` where there is none.
pub open spec fn drop_spaces(text: Seq<char>, from: int, end: int) -> int
    decreases end - from,
{
    if end <= from || from < 0 || end > text.len() {
        from
    } else if is_space(text[end - 1]) {
        drop_spaces(text, from, end - 1)
    } else {
        end
    }
}

/// The first line of a commit message without the white space around it,
/// and `No message` for a commit without a message or with an empty one.
pub open spec fn summary_text(message: Option<Seq<char>>) -> Seq<char> {
    match message {
        Some(text) => if text.len() == 0 {
            "No message"@
        } else {
            let end = first_line_end(text);
            let start = skip_spaces(text, 0, end);
            text.subrange(start, drop_spaces(text, start, end))
        },
        None => "No message"@,
    }
}

/// Whether a character is white space.
pub fn is_white_space(c: char) -> (space: bool)
    ensures
        space == is_space(c),
{
    let code: u32 = c as u32;
    (0x09 <= code && code <= 0x0d) || code == 0x20 || code == 0x85 || code == 0xa0 || code
        == 0x1680 || (0x2000 <= code && code <= 0x200a) || code == 0x2028 || code == 0x2029 || code
        == 0x202f || code == 0x205f || code == 0x3000
}

/// The line by which a commit is shown: the first line of its message
/// without the white space around it, and `No message` where it has none.
pub fn commit_summary(message: Option<&str>) -> (summary: String)
    ensures
        summary@ == summary_text(
            match message {
                Some(text) => Some(text@),
                None => None,
            },
        ),
{
    let text: &str = match message {
        Some(text) => text,
        None => {
            return "No message".to_owned();
        },
    };
    let len: usize = text.unicode_len();
    if len == 0 {
        return "No message".to_owned();
    }
    let mut end: usize = 0;
    while end < len && text.get_char(end) != '\n'
        invariant
            end <= len,
            len == text@.len(),
            line_end(text@, 0) == line_end(text@, end as int),
        decreases len - end,
    {
        end += 1;
    }
    if end < len && end > 0 && text.get_char(end - 1) == '\r' {
        end -= 1;
    }
    let mut start: usize = 0;
    while start < end && is_white_space(text.get_char(start))
        invariant
            start <= end <= len,
            len == text@.len(),
            skip_spaces(text@, 0, end as int) == skip_spaces(text@, start as int, end as int),
        decreases end - start,
    {
        start += 1;
    }
    let mut stop: usize = end;
    while stop > start && is_white_space(text.get_char(stop - 1))
        invariant
            start <= stop <= end <= len,
            len == text@.len(),
            drop_spaces(text@, start as int, end as int) == drop_spaces(
                text@,
                start as int,
                stop as int,
            ),
        decreases stop,
    {
        stop -= 1;
    }
    text.substring_char(start, stop).to_owned()
}

/// A summary of a repository's history.
#[derive(Debug, PartialEq, Eq)]
pub struct GitInfo {
    /// Where the remote called `origin` points, if there is one.
    pub remote_url: Option<String>,
    /// When the first commit was made, in seconds since the epoch.
    pub init_date: u32,
    /// When the last commit was made, in seconds since the epoch.
    pub last_commit_date: u32,
    /// The first line of the last commit's message.
    pub last_commit_msg: Option<String>,
    /// How many commits lead up to `HEAD`.
    pub commit_count: u32,
}

/// A `GitInfo` with its strings as sequences of characters.
pub ghost struct GitInfoView {
    pub remote_url: Option<Seq<char>>,
    pub init_date: u32,
    pub last_commit_date: u32,
    pub last_commit_msg: Option<Seq<char>>,
    pub commit_count: u32,
}

/// The characters of a string that may be absent.
pub open spec fn optional_chars(text: Option<String>) -> Option<Seq<char>> {
    match text {
        Some(s) => Some(s@),
        None => None,
    }
}

impl View for GitInfo {
    type V = GitInfoView;

    open spec fn view(&self) -> GitInfoView {
        GitInfoView {
            remote_url: optional_chars(self.remote_url),
            init_date: self.init_date,
            last_commit_date: self.last_commit_date,
            last_commit_msg: optional_chars(self.last_commit_msg),
            commit_count: self.commit_count,
        }
    }
}

/// A time in seconds since the epoch as the cache keeps it: the number
/// itself where it is known and fits a `u32`, and 0 otherwise.
pub open spec fn time_or_zero(timestamp: Option<i64>) -> u32 {
    match timestamp {
        Some(seconds) => if 0 <= seconds <= u32::MAX {
            seconds as u32
        } else {
            0
        },
        None => 0,
    }
}

/// Turns the time of a commit into the form that the cache keeps.
pub fn format_time(timestamp: Option<i64>) -> (seconds: u32)
    ensures
        seconds == time_or_zero(timestamp),
{
    match timestamp {
        Some(seconds) => if 0 <= seconds && seconds <= 4294967295 {
            seconds as u32
        } else {
            0
        },
        None => 0,
    }
}

impl GitInfo {
    /// The summary of a history of `commits` commits, of which the first
    /// and the last were made at the given times. `None` where the number of
    /// commits does not fit a `u32`.
    pub fn from_history(
        remote_url: Option<String>,
        first_commit_time: Option<i64>,
        last_commit_time: Option<i64>,
        last_commit_msg: Option<String>,
        commits: usize,
    ) -> (info: Option<Self>)
        ensures
            info is Some <==> commits <= u32::MAX,
            info matches Some(summary) ==> summary == (GitInfo {
                remote_url,
                init_date: time_or_zero(first_commit_time),
                last_commit_date: time_or_zero(last_commit_time),
                last_commit_msg,
                commit_count: commits as u32,
            }),
    {
        if commits > 4294967295 {
            return None;
        }
        Some(
            GitInfo {
                remote_url,
                init_date: format_time(first_commit_time),
                last_commit_date: format_time(last_commit_time),
                last_commit_msg,
                commit_count: commits as u32,
            },
        )
    }
}

impl Clone for GitInfo {
    /// A summary with the same strings and numbers.
    fn clone(&self) -> (copy: Self)
        ensures
            copy == *self,
    {
        let remote_url = match &self.remote_url {
            Some(url) => Some(url.clone()),
            None => None,
        };
        let last_commit_msg = match &self.last_commit_msg {
            Some(message) => Some(message.clone()),
            None => None,
        };
        GitInfo {
            remote_url,
            init_date: self.init_date,
            last_commit_date: self.last_commit_date,
            last_commit_msg,
            commit_count: self.commit_count,
        }
    }
}

impl Default for GitInfo {
    /// The summary of a repository without history: no strings, and zeros.
    fn default() -> (info: Self)
        ensures
            info@ == (GitInfoView {
                remote_url: None,
                init_date: 0,
                last_commit_date: 0,
                last_commit_msg: None,
                commit_count: 0,
            }),
    {
        GitInfo {
            remote_url: None,
            init_date: 0,
            last_commit_date: 0,
            last_commit_msg: None,
            commit_count: 0,
        }
    }
}

} // verus!
