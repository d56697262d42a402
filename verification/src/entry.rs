use vstd::prelude::*;
use crate::mime::{classify_name, mime_of_name};

verus! {

/// Kind of a filesystem entry: a plain file or a directory.
#[derive(Clone, Copy, Debug, PartialEq, Eq, Structural)]
pub enum EntryKind {
    File,
    Directory,
}

/// An instant as the filesystem reports it: non-leap seconds since the Unix
/// epoch and the nanoseconds into that second.
#[derive(Clone, Copy, Debug, PartialEq, Eq, Structural)]
pub struct Timestamp {
    pub secs: i64,
    pub nanos: u32,
}

/// What a single failed operation reports.
#[derive(Clone, Copy, Debug, PartialEq, Eq, Structural)]
pub enum Error {
    /// A directory could not be read, an entry's metadata could not be
    /// retrieved, or a timestamp could not be rendered.
    Io,
    /// An entry's name is not valid text.
    UndecodableName,
}

impl Error {
    /// A short description of the failure.
    pub fn message(&self) -> (m: &'static str)
        ensures
            m@ == (match *self {
                Error::Io => "io error"@,
                Error::UndecodableName => "undecodable file name"@,
            }),
    {
        match *self {
            Error::Io => "io error",
            Error::UndecodableName => "undecodable file name",
        }
    }
}

/// What the filesystem reports for one entry, as plain values: its (possibly
/// undecodable) leaf name, its full path, whether it is a directory, its byte
/// length, and its three timestamps.
pub struct RawEntry {
    pub name: Option<String>,
    pub path: String,
    pub is_dir: bool,
    pub size: u64,
    pub created: Timestamp,
    pub modified: Timestamp,
    pub accessed: Timestamp,
}

/// The enriched record describing one filesystem item.
#[derive(Debug)]
pub struct DirectoryEntry {
    pub name: String,
    pub path: String,
    pub kind: EntryKind,
    pub mime_type: String,
    pub size_bytes: u64,
    pub created_at: String,
    pub modified_at: String,
    pub accessed_at: String,
}

/// What chrono renders for a given instant: `None` when the instant is out of
/// chrono's range, otherwise the ISO-8601 text with UTC offset.
pub uninterp spec fn iso8601_of(secs: int, nanos: int) -> Option<Seq<char>>;

/// Relies on chrono's `DateTime::<Utc>::from_timestamp` and its `%+`
/// (ISO-8601 / RFC 3339) formatting: whether the instant is representable,
/// and the text it renders to, depend on the seconds and nanoseconds alone.
#[verifier::external_body]
fn format_iso8601(secs: i64, nanos: u32) -> (r: Option<String>)
    ensures
        r is Some <==> iso8601_of(secs as int, nanos as int) is Some,
        r matches Some(s) ==> iso8601_of(secs as int, nanos as int) == Some(s@),
{
    chrono::DateTime::<chrono::Utc>::from_timestamp(secs, nanos).map(
        |dt| format!("{}", dt.format("%+")),
    )
}

/// The instant can be rendered as an ISO-8601 string.
pub open spec fn ts_renderable(t: Timestamp) -> bool {
    iso8601_of(t.secs as int, t.nanos as int) is Some
}

/// The rendered text of an instant (meaningful only when it is renderable).
pub open spec fn ts_text(t: Timestamp) -> Seq<char> {
    iso8601_of(t.secs as int, t.nanos as int)->0
}

/// All three timestamps of the entry can be rendered.
pub open spec fn raw_ok(c: RawEntry) -> bool {
    ts_renderable(c.created) && ts_renderable(c.modified) && ts_renderable(c.accessed)
}

/// The decoded leaf name of a raw entry (meaningful only when decodable).
pub open spec fn raw_name(c: RawEntry) -> Seq<char> {
    c.name->0@
}

/// The name is decodable and does not carry the hidden (dot) prefix.
pub open spec fn raw_visible(c: RawEntry) -> bool {
    c.name is Some && raw_name(c).len() > 0 && raw_name(c)[0] != '.'
}

/// The record `e` is exactly what the enricher derives from the raw entry
/// `c`: same name and path, kind from the directory flag, size forced to 0
/// for directories, classification from the name, and the three rendered
/// timestamps.
pub open spec fn entry_matches(e: DirectoryEntry, c: RawEntry) -> bool {
    &&& e.name@ == raw_name(c)
    &&& e.path@ == c.path@
    &&& e.kind == (if c.is_dir {
        EntryKind::Directory
    } else {
        EntryKind::File
    })
    &&& e.size_bytes == (if c.is_dir {
        0u64
    } else {
        c.size
    })
    &&& e.mime_type@ == mime_of_name(raw_name(c))
    &&& e.created_at@ == ts_text(c.created)
    &&& e.modified_at@ == ts_text(c.modified)
    &&& e.accessed_at@ == ts_text(c.accessed)
}

/// The metadata enricher: derive the full record for one raw entry. An
/// undecodable name is reported as such; an instant that cannot be rendered
/// gives an IO error; never returns a partial record.
pub fn enrich(c: &RawEntry) -> (r: Result<DirectoryEntry, Error>)
    ensures
        r is Ok <==> c.name is Some && raw_ok(*c),
        c.name is None ==> r == Err::<DirectoryEntry, Error>(Error::UndecodableName),
        c.name is Some && !raw_ok(*c) ==> r == Err::<DirectoryEntry, Error>(Error::Io),
        r matches Ok(e) ==> entry_matches(e, *c),
{
    let name: &String = match &c.name {
        Some(n) => n,
        None => {
            return Err(Error::UndecodableName);
        },
    };
    let created_at = match format_iso8601(c.created.secs, c.created.nanos) {
        Some(s) => s,
        None => {
            return Err(Error::Io);
        },
    };
    let modified_at = match format_iso8601(c.modified.secs, c.modified.nanos) {
        Some(s) => s,
        None => {
            return Err(Error::Io);
        },
    };
    let accessed_at = match format_iso8601(c.accessed.secs, c.accessed.nanos) {
        Some(s) => s,
        None => {
            return Err(Error::Io);
        },
    };
    let mime_type = classify_name(name.as_str());
    Ok(
        DirectoryEntry {
            name: String::from_str(name.as_str()),
            path: String::from_str(c.path.as_str()),
            kind: if c.is_dir {
                EntryKind::Directory
            } else {
                EntryKind::File
            },
            mime_type,
            size_bytes: if c.is_dir {
                0
            } else {
                c.size
            },
            created_at,
            modified_at,
            accessed_at,
        },
    )
}

} // verus!
