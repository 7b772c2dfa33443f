//! Descriptive metadata of the payload source: file name, type tag, size
//! and modification time, as embedded into the container.

use vstd::prelude::*;
use vstd::string::StrSliceExecFns;

verus! {

/// Latest second that `format_timestamp` accepts: the end of year 9999.
pub const MAX_TIMESTAMP_SECS: i64 = 253402300799;

/// The text that the calendar rendering of `secs` seconds after the Unix
/// epoch produces; it depends on `secs` alone.
pub uninterp spec fn timestamp_text(secs: int) -> Seq<char>;

/// Relies on chrono's `DateTime::<Utc>::from_timestamp` and `format`:
/// renders `secs` seconds after the Unix epoch as `"YYYY-MM-DD HH:MM:SS"`
/// in UTC, 19 characters for every year up to 9999; the result depends on
/// `secs` alone.
#[verifier::external_body]
fn format_timestamp(secs: i64) -> (r: String)
    requires
        0 <= secs <= MAX_TIMESTAMP_SECS,
    ensures
        r@ == timestamp_text(secs as int),
        r@.len() == 19,
{
    match chrono::DateTime::from_timestamp(secs, 0) {
        Some(dt) => dt.format("%Y-%m-%d %H:%M:%S").to_string(),
        None => String::new(),
    }
}

/// The file name carried by a path: everything after the last `/`, or the
/// whole path when it has no separator.
pub open spec fn base_name(path: Seq<char>) -> Seq<char> {
    match path.index_of_last('/') {
        Some(i) => path.subrange(i + 1, path.len() as int),
        None => path,
    }
}

/// The type tag carried by a file name: everything after the last `.`,
/// empty when there is no dot or when the only dot leads the name.
pub open spec fn extension_of(name: Seq<char>) -> Seq<char> {
    match name.index_of_last('.') {
        Some(i) => {
            if i > 0 {
                name.subrange(i + 1, name.len() as int)
            } else {
                Seq::empty()
            }
        },
        None => Seq::empty(),
    }
}

/// Position of the last occurrence of `ch` in `s`, if any.
fn last_occurrence(s: &str, ch: char) -> (r: Option<usize>)
    ensures
        match r {
            Some(i) => s@.index_of_last(ch) == Some(i as int),
            None => s@.index_of_last(ch) is None,
        },
{
    let n: usize = s.unicode_len();
    let mut i: usize = n;
    while i > 0
        invariant
            i <= n,
            n == s@.len(),
            forall|j: int| i as int <= j < n as int ==> s@[j] != ch,
        decreases i,
    {
        i = i - 1;
        let c: char = s.get_char(i);
        if c == ch {
            proof {
                s@.index_of_last_ensures(ch);
                assert(s@[i as int] == ch);
                assert(s@.contains(ch));
            }
            return Some(i);
        }
    }
    proof {
        s@.index_of_last_ensures(ch);
        if s@.contains(ch) {
            let w = choose|j: int| 0 <= j < s@.len() && s@[j] == ch;
            assert(s@[w] != ch);
        }
    }
    None
}

/// Copies the characters of `s` from `from` (inclusive) to `to` (exclusive)
/// into an owned string.
fn copy_range(s: &str, from: usize, to: usize) -> (r: String)
    requires
        from as int <= to as int,
        to as int <= s@.len(),
    ensures
        r@ == s@.subrange(from as int, to as int),
{
    let part: &str = s.substring_char(from, to);
    part.to_owned()
}

/// Metadata of one payload file: its name, type tag, path, byte size and
/// modification time, rendered as text.
pub struct FileInfo {
    name: String,
    datatype: String,
    path: String,
    size: usize,
    date: String,
}

impl Clone for FileInfo {
    /// Copies the metadata record.
    fn clone(&self) -> (r: Self)
        ensures
            r == *self,
    {
        FileInfo {
            name: self.name.clone(),
            datatype: self.datatype.clone(),
            path: self.path.clone(),
            size: self.size,
            date: self.date.clone(),
        }
    }
}

impl FileInfo {
    /// What `name` returns.
    pub closed spec fn spec_name(self) -> Seq<char> {
        self.name@
    }

    /// What `datatype` returns.
    pub closed spec fn spec_datatype(self) -> Seq<char> {
        self.datatype@
    }

    /// What `path` returns.
    pub closed spec fn spec_path(self) -> Seq<char> {
        self.path@
    }

    /// What `size` returns.
    pub closed spec fn spec_size(self) -> int {
        self.size as int
    }

    /// What `date` returns.
    pub closed spec fn spec_date(self) -> Seq<char> {
        self.date@
    }

    /// Builds the metadata record from a path and the file's measurements:
    /// the name is the path's last component, the type tag the name's
    /// extension, and the date the calendar rendering of the modification
    /// time, `modified_secs` seconds after the Unix epoch.
    pub fn new(path: &str, size: usize, modified_secs: i64) -> (f: FileInfo)
        requires
            0 <= modified_secs <= MAX_TIMESTAMP_SECS,
        ensures
            f.spec_name() == base_name(path@),
            f.spec_datatype() == extension_of(base_name(path@)),
            f.spec_path() == path@,
            f.spec_size() == size as int,
            f.spec_date() == timestamp_text(modified_secs as int),
            f.spec_date().len() == 19,
    {
        let n: usize = path.unicode_len();
        let name: String = match last_occurrence(path, '/') {
            Some(i) => {
                proof {
                    path@.index_of_last_ensures('/');
                }
                copy_range(path, i + 1, n)
            },
            None => path.to_owned(),
        };
        let name_len: usize = name.as_str().unicode_len();
        let datatype: String = match last_occurrence(name.as_str(), '.') {
            Some(i) => {
                proof {
                    name@.index_of_last_ensures('.');
                }
                if i > 0 {
                    copy_range(name.as_str(), i + 1, name_len)
                } else {
                    String::new()
                }
            },
            None => String::new(),
        };
        let date: String = format_timestamp(modified_secs);
        proof {
            assert(extension_of(name@) =~= datatype@);
        }
        FileInfo { name, datatype, path: path.to_owned(), size, date }
    }

    /// The file name: the path's last component.
    pub fn name(&self) -> (r: &str)
        ensures
            r@ == self.spec_name(),
    {
        self.name.as_str()
    }

    /// The type tag: the file name's extension.
    pub fn datatype(&self) -> (r: &str)
        ensures
            r@ == self.spec_datatype(),
    {
        self.datatype.as_str()
    }

    /// The path the record was built from.
    pub fn path(&self) -> (r: &str)
        ensures
            r@ == self.spec_path(),
    {
        self.path.as_str()
    }

    /// The payload size in bytes.
    pub fn size(&self) -> (r: usize)
        ensures
            r as int == self.spec_size(),
    {
        self.size
    }

    /// The modification time, rendered as text.
    pub fn date(&self) -> (r: &str)
        ensures
            r@ == self.spec_date(),
    {
        self.date.as_str()
    }
}

} // verus!
