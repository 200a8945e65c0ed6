//! One directory child: what the operating system reported for it, the
//! record resolved from that, and the ways resolution fails.

use crate::decimal::{decimal, push_decimal};
use crate::listing::CLI;
use vstd::prelude::*;
use vstd::string::*;

verus! {

/// Whether a name is listed only on request.
#[derive(Debug, Clone, Copy, PartialEq, Eq, Structural)]
pub enum EntryType {
    Hidden,
    Normal,
}

/// One resolved directory child.
#[derive(Debug, Clone)]
pub struct Entry {
    pub permissions: u32,
    pub owner: String,
    pub group: String,
    pub file_size: u64,
    pub modified_at: String,
    pub filename: String,
    pub file_type: EntryType,
}

/// An instant as seconds since 1970-01-01 00:00:00 UTC and the nanoseconds
/// past that second.
#[derive(Debug, Clone, Copy, PartialEq, Eq, Structural)]
pub struct Timestamp {
    pub secs: i64,
    pub nanos: u32,
}

/// The metadata of one child, as the operating system gave it; a failed
/// read of the modification time carries the system's message.
#[derive(Debug)]
pub struct RawMetadata {
    pub mode: u32,
    pub uid: u32,
    pub gid: u32,
    pub len: u64,
    pub modified: Result<Timestamp, String>,
}

/// One child as enumerated: its metadata, or the system's message when it
/// could not be read, and its name when that name is valid text.
#[derive(Debug)]
pub struct RawEntry {
    pub metadata: Result<RawMetadata, String>,
    pub name: Option<String>,
}

/// A numeric identity whose name could not be resolved.
#[derive(Debug, Clone, Copy, PartialEq, Eq, Structural)]
pub enum Identity {
    User(u32),
    Group(u32),
}

/// Why a listing could not be produced.
#[derive(Debug, Clone)]
pub enum ListError {
    /// The directory could not be opened or enumerated; the system's message.
    DirectoryUnavailable(String),
    /// Mode, size or modification time could not be read; the system's message.
    MetadataUnavailable(String),
    /// A uid or gid has no name.
    IdentityResolutionFailed(Identity),
    /// A name is not valid text.
    InvalidFilename,
}

/// The content of a `ListError`, with its messages as character sequences.
pub enum Failure {
    DirectoryUnavailable(Seq<char>),
    MetadataUnavailable(Seq<char>),
    IdentityResolutionFailed(Identity),
    InvalidFilename,
}

impl View for ListError {
    type V = Failure;

    open spec fn view(&self) -> Failure {
        match self {
            ListError::DirectoryUnavailable(m) => Failure::DirectoryUnavailable(m@),
            ListError::MetadataUnavailable(m) => Failure::MetadataUnavailable(m@),
            ListError::IdentityResolutionFailed(id) => Failure::IdentityResolutionFailed(*id),
            ListError::InvalidFilename => Failure::InvalidFilename,
        }
    }
}

/// The diagnostic text of a failure: the system's message where it brought
/// one, else a sentence naming what could not be resolved.
pub open spec fn message_of(f: Failure) -> Seq<char> {
    match f {
        Failure::DirectoryUnavailable(m) => m,
        Failure::MetadataUnavailable(m) => m,
        Failure::IdentityResolutionFailed(Identity::User(u)) => "owner lookup failed for uid "@ + decimal(
            u as nat,
        ),
        Failure::IdentityResolutionFailed(Identity::Group(g)) => "group lookup failed for gid "@ + decimal(
            g as nat,
        ),
        Failure::InvalidFilename => "filename does not contain valid unicode"@,
    }
}

impl ListError {
    /// The diagnostic text of this failure.
    pub fn message(&self) -> (r: String)
        ensures
            r@ == message_of(self@),
    {
        match self {
            ListError::DirectoryUnavailable(m) => m.clone(),
            ListError::MetadataUnavailable(m) => m.clone(),
            ListError::IdentityResolutionFailed(Identity::User(u)) => {
                let mut out = String::from_str("owner lookup failed for uid ");
                push_decimal(&mut out, *u as u64);
                out
            },
            ListError::IdentityResolutionFailed(Identity::Group(g)) => {
                let mut out = String::from_str("group lookup failed for gid ");
                push_decimal(&mut out, *g as u64);
                out
            },
            ListError::InvalidFilename => String::from_str("filename does not contain valid unicode"),
        }
    }
}

/// The format of a modification time: month abbreviation, day, hour, minute.
pub open spec fn stamp_format() -> Seq<char> {
    seq!['%', 'b', ' ', '%', 'd', ' ', '%', 'H', ':', '%', 'M']
}

/// The text of a modification time that lies beyond what can be formatted.
pub open spec fn out_of_range_message() -> Seq<char> {
    seq!['t', 'i', 'm', 'e', ' ', 'o', 'u', 't', ' ', 'o', 'f', ' ', 'r', 'a', 'n', 'g', 'e']
}

/// The text that chrono formats for the UTC instant `secs`, `nanos` with the
/// pattern `fmt`, or `None` where chrono has no such instant.
pub uninterp spec fn utc_formatted(secs: int, nanos: int, fmt: Seq<char>) -> Option<Seq<char>>;

/// A name starting with `.` is hidden.
pub open spec fn type_of_name(name: Seq<char>) -> EntryType {
    if name.len() > 0 && name[0] == '.' {
        EntryType::Hidden
    } else {
        EntryType::Normal
    }
}

/// The formatted modification time of a child, where its metadata has one.
pub open spec fn stamp_of(raw: RawEntry) -> Option<Seq<char>> {
    match raw.metadata {
        Ok(md) => match md.modified {
            Ok(t) => utc_formatted(t.secs as int, t.nanos as int, stamp_format()),
            Err(_) => None,
        },
        Err(_) => None,
    }
}

/// The first failure in resolving a child, in the order mode, owner, group,
/// size, modification time, name; `None` when it resolves. The flags say
/// whether the owner, the group and the time text were found.
pub open spec fn first_failure(raw: RawEntry, owner_found: bool, group_found: bool, stamp_found: bool) -> Option<Failure> {
    match raw.metadata {
        Err(m) => Some(Failure::MetadataUnavailable(m@)),
        Ok(md) => if !owner_found {
            Some(Failure::IdentityResolutionFailed(Identity::User(md.uid)))
        } else if !group_found {
            Some(Failure::IdentityResolutionFailed(Identity::Group(md.gid)))
        } else {
            match md.modified {
                Err(m) => Some(Failure::MetadataUnavailable(m@)),
                Ok(_) => if !stamp_found {
                    Some(Failure::MetadataUnavailable(out_of_range_message()))
                } else if raw.name is None {
                    Some(Failure::InvalidFilename)
                } else {
                    None
                },
            }
        },
    }
}

/// The fields of `e` that the child `raw` alone decides: mode, size, name,
/// visibility; and that its metadata holds a modification time.
pub open spec fn fits_raw(e: Entry, raw: RawEntry) -> bool {
    &&& raw.metadata is Ok
    &&& raw.metadata->Ok_0.modified is Ok
    &&& raw.name is Some
    &&& e.permissions == raw.metadata->Ok_0.mode
    &&& e.file_size == raw.metadata->Ok_0.len
    &&& e.filename@ == raw.name->Some_0@
    &&& e.file_type == type_of_name(e.filename@)
}

/// A child that resolves whenever its owner and group have names.
pub open spec fn sound(raw: RawEntry) -> bool {
    first_failure(raw, true, true, stamp_of(raw) is Some) is None
}

/// `f` is how `raw` fails for some outcome of the owner and group lookups.
pub open spec fn can_fail_with(raw: RawEntry, f: Failure) -> bool {
    exists|o: bool, g: bool| #[trigger] first_failure(raw, o, g, stamp_of(raw) is Some) == Some(f)
}

/// Relies on users::get_user_by_uid: the name of the account with that uid,
/// as the system's user database has it at the time of the call.
#[verifier::external_body]
pub(crate) fn user_name(uid: u32) -> (r: Option<String>) {
    match users::get_user_by_uid(uid) {
        Some(u) => Some(u.name().to_string_lossy().to_string()),
        None => None,
    }
}

/// Relies on users::get_group_by_gid: the name of the group with that gid,
/// as the system's group database has it at the time of the call.
#[verifier::external_body]
pub(crate) fn group_name(gid: u32) -> (r: Option<String>) {
    match users::get_group_by_gid(gid) {
        Some(g) => Some(g.name().to_string_lossy().to_string()),
        None => None,
    }
}

/// Relies on chrono's `DateTime::<Utc>::from_timestamp`, which gives `None`
/// for an instant out of its range, and `DateTime::format`, whose text
/// depends on the instant and the pattern alone. The pattern is held to the
/// one valid pattern that the listing uses: chrono's formatting fails on an
/// unparsable pattern, and `to_string` then panics.
#[verifier::external_body]
pub(crate) fn format_utc(secs: i64, nanos: u32, fmt: &str) -> (r: Option<String>)
    requires
        fmt@ == stamp_format(),
    ensures
        match r {
            Some(s) => utc_formatted(secs as int, nanos as int, fmt@) == Some(s@),
            None => utc_formatted(secs as int, nanos as int, fmt@) is None,
        },
{
    match chrono::DateTime::<chrono::Utc>::from_timestamp(secs, nanos) {
        Some(d) => Some(d.format(fmt).to_string()),
        None => None,
    }
}

/// The modification time of a child as text (`Jan 05 14:32`), where its
/// metadata holds one that can be formatted.
pub fn modified_text(t: Timestamp) -> (r: Option<String>)
    ensures
        match r {
            Some(s) => utc_formatted(t.secs as int, t.nanos as int, stamp_format()) == Some(s@),
            None => utc_formatted(t.secs as int, t.nanos as int, stamp_format()) is None,
        },
{
    let fmt = "%b %d %H:%M";
    proof {
        reveal_strlit("%b %d %H:%M");
        assert(fmt@ =~= stamp_format());
    }
    format_utc(t.secs, t.nanos, fmt)
}

/// Builds the record of one child from what the system reported and from the
/// owner name, group name and time text found for it; fails with the first
/// of these that is missing, in the order mode, owner, group, size,
/// modification time, name.
pub fn resolve_entry(
    raw: RawEntry,
    owner: Option<String>,
    group: Option<String>,
    modified_at: Option<String>,
) -> (r: Result<Entry, ListError>)
    ensures
        match first_failure(raw, owner is Some, group is Some, modified_at is Some) {
            Some(f) => r is Err && r->Err_0@ == f,
            None => r is Ok,
        },
        r matches Ok(e) ==> {
            &&& fits_raw(e, raw)
            &&& e.owner@ == owner->Some_0@
            &&& e.group@ == group->Some_0@
            &&& e.modified_at@ == modified_at->Some_0@
        },
{
    let md = match raw.metadata {
        Err(m) => {
            return Err(ListError::MetadataUnavailable(m));
        },
        Ok(md) => md,
    };
    let owner = match owner {
        None => {
            return Err(ListError::IdentityResolutionFailed(Identity::User(md.uid)));
        },
        Some(o) => o,
    };
    let group = match group {
        None => {
            return Err(ListError::IdentityResolutionFailed(Identity::Group(md.gid)));
        },
        Some(g) => g,
    };
    match md.modified {
        Err(m) => {
            return Err(ListError::MetadataUnavailable(m));
        },
        Ok(_) => {},
    }
    let modified_at = match modified_at {
        None => {
            let m = String::from_str("time out of range");
            proof {
                reveal_strlit("time out of range");
            }
            assert(m@ =~= out_of_range_message());
            return Err(ListError::MetadataUnavailable(m));
        },
        Some(t) => t,
    };
    let filename = match raw.name {
        None => {
            return Err(ListError::InvalidFilename);
        },
        Some(n) => n,
    };
    let file_type = CLI::get_file_type(&filename);
    Ok(
        Entry {
            permissions: md.mode,
            owner,
            group,
            file_size: md.len,
            modified_at,
            filename,
            file_type,
        },
    )
}

} // verus!
