//! Small decisions around the store: who acts, which file is the database,
//! which file is the snapshot, and how a dependency is written on the
//! command line.

use vstd::prelude::*;
use vstd::string::*;
use crate::error::{TraceError, ValidationError};
use crate::ident::{decimal, format_number};
use crate::text::{copy_string, opt_text, str_eq};
use crate::types::{DependencyType, Timestamp};

verus! {

/// The name used when nobody is named.
pub open spec fn unknown_actor() -> Seq<char> {
    "unknown"@
}

/// The acting person's name: the tracker's own setting if it is there, else
/// the user name, else the alternative user name, else `unknown`.
pub fn get_actor(
    trace_actor: Option<String>,
    user: Option<String>,
    username: Option<String>,
) -> (r: String)
    ensures
        r@ == match (opt_text(trace_actor), opt_text(user), opt_text(username)) {
            (Some(a), _, _) => a,
            (None, Some(u), _) => u,
            (None, None, Some(n)) => n,
            (None, None, None) => unknown_actor(),
        },
{
    match trace_actor {
        Some(a) => a,
        None => match user {
            Some(u) => u,
            None => match username {
                Some(n) => n,
                None => "unknown".to_owned(),
            },
        },
    }
}

/// A file in a directory: its path, and its extension if it has one.
#[derive(Debug)]
pub struct PathEntry {
    pub path: String,
    pub extension: Option<String>,
}

/// The mathematical value of a [`PathEntry`].
pub ghost struct PathEntryView {
    pub path: Seq<char>,
    pub extension: Option<Seq<char>>,
}

impl View for PathEntry {
    type V = PathEntryView;

    open spec fn view(&self) -> PathEntryView {
        PathEntryView { path: self.path@, extension: opt_text(self.extension) }
    }
}

/// The views of a directory listing.
pub open spec fn entry_views(s: Seq<PathEntry>) -> Seq<PathEntryView> {
    s.map_values(|e: PathEntry| e@)
}

/// The views of the listings of several directories.
pub open spec fn level_views(s: Seq<Vec<PathEntry>>) -> Seq<Seq<PathEntryView>> {
    s.map_values(|l: Vec<PathEntry>| entry_views(l@))
}

/// The place of the first entry at or after `from` with the extension
/// `ext`, or the length of the listing if there is none.
pub open spec fn first_with_extension(entries: Seq<PathEntryView>, ext: Seq<char>, from: int) -> int
    decreases entries.len() - from,
{
    if from < 0 || from >= entries.len() {
        entries.len() as int
    } else if entries[from].extension == Some(ext) {
        from
    } else {
        first_with_extension(entries, ext, from + 1)
    }
}

/// The path of the first entry with the extension `ext`, if there is one.
pub open spec fn pick_by_extension(entries: Seq<PathEntryView>, ext: Seq<char>) -> Option<Seq<char>> {
    let i = first_with_extension(entries, ext, 0);
    if i < entries.len() {
        Some(entries[i].path)
    } else {
        None
    }
}

/// The first pick over the listings from `from` on.
pub open spec fn pick_in_levels(levels: Seq<Seq<PathEntryView>>, ext: Seq<char>, from: int) -> Option<
    Seq<char>,
>
    decreases levels.len() - from,
{
    if from < 0 || from >= levels.len() {
        None
    } else if pick_by_extension(levels[from], ext) is Some {
        pick_by_extension(levels[from], ext)
    } else {
        pick_in_levels(levels, ext, from + 1)
    }
}

/// The path of the first entry with the extension `ext`.
fn pick_entry(entries: &Vec<PathEntry>, ext: &str) -> (r: Option<String>)
    ensures
        opt_text(r) == pick_by_extension(entry_views(entries@), ext@),
{
    let mut i: usize = 0;
    let ghost all = entry_views(entries@);
    while i < entries.len()
        invariant
            i <= entries.len(),
            all == entry_views(entries@),
            first_with_extension(all, ext@, 0) == first_with_extension(all, ext@, i as int),
        decreases entries.len() - i,
    {
        assert(all[i as int] == entries[i as int]@);
        let hit = match &entries[i].extension {
            Some(e) => str_eq(e.as_str(), ext),
            None => false,
        };
        if hit {
            return Some(copy_string(&entries[i].path));
        }
        i += 1;
    }
    None
}

/// The snapshot file beside a database: the first file of the database's
/// directory with the extension `jsonl`, or else `default_path`.
pub fn find_jsonl_path(entries: &Vec<PathEntry>, default_path: &str) -> (r: String)
    ensures
        r@ == match pick_by_extension(entry_views(entries@), "jsonl"@) {
            Some(p) => p,
            None => default_path@,
        },
{
    match pick_entry(entries, "jsonl") {
        Some(p) => p,
        None => default_path.to_owned(),
    }
}

/// The database found on the way up the directory tree: `levels` holds the
/// listing of the tracker's directory at each level, the nearest first; the
/// result is the first file with the extension `db` at the first level that
/// has one.
pub fn find_database_in_tree(levels: &Vec<Vec<PathEntry>>) -> (r: Option<String>)
    ensures
        opt_text(r) == pick_in_levels(level_views(levels@), "db"@, 0),
{
    let mut i: usize = 0;
    let ghost all = level_views(levels@);
    while i < levels.len()
        invariant
            i <= levels.len(),
            all == level_views(levels@),
            pick_in_levels(all, "db"@, 0) == pick_in_levels(all, "db"@, i as int),
        decreases levels.len() - i,
    {
        assert(all[i as int] == entry_views(levels[i as int]@));
        let found = pick_entry(&levels[i], "db");
        if found.is_some() {
            return found;
        }
        i += 1;
    }
    None
}

/// The database to open: the configured path if there is one, else the one
/// found on the way up the directory tree, else the default in the home
/// directory; none if all three are missing.
pub fn find_database_path(
    configured: Option<String>,
    levels: &Vec<Vec<PathEntry>>,
    home_default: Option<String>,
) -> (r: Option<String>)
    ensures
        opt_text(r) == if opt_text(configured) is Some {
            opt_text(configured)
        } else if pick_in_levels(level_views(levels@), "db"@, 0) is Some {
            pick_in_levels(level_views(levels@), "db"@, 0)
        } else {
            opt_text(home_default)
        },
{
    if configured.is_some() {
        return configured;
    }
    let found = find_database_in_tree(levels);
    if found.is_some() {
        return found;
    }
    home_default
}

/// The place of the first colon at or after `from`, or the length of the
/// text if there is none.
pub open spec fn colon_at(s: Seq<char>, from: int) -> int
    decreases s.len() - from,
{
    if from < 0 || from >= s.len() {
        s.len() as int
    } else if s[from] == ':' {
        from
    } else {
        colon_at(s, from + 1)
    }
}

/// The dependency type with this text form, if there is one.
pub open spec fn type_named(name: Seq<char>) -> Option<DependencyType> {
    if name == DependencyType::Blocks.name() {
        Some(DependencyType::Blocks)
    } else if name == DependencyType::Related.name() {
        Some(DependencyType::Related)
    } else if name == DependencyType::ParentChild.name() {
        Some(DependencyType::ParentChild)
    } else if name == DependencyType::DiscoveredFrom.name() {
        Some(DependencyType::DiscoveredFrom)
    } else {
        None
    }
}

/// What a dependency written as `type:id`, or as `id` alone, means: the text
/// before the first colon names the type and the text behind it is the
/// identifier; without a colon the type is the blocking one and the whole
/// text is the identifier.
pub open spec fn dependency_spec(s: Seq<char>) -> Result<(DependencyType, Seq<char>), TraceError> {
    let i = colon_at(s, 0);
    if i >= s.len() {
        Ok((DependencyType::Blocks, s))
    } else {
        match type_named(s.take(i)) {
            Some(t) => Ok((t, s.skip(i + 1))),
            None => Err(TraceError::Validation(ValidationError::InvalidDependencyType)),
        }
    }
}

/// Reads a dependency written as `type:id` or as `id` alone.
pub fn parse_dependency_spec(spec: &str) -> (r: Result<(DependencyType, String), TraceError>)
    ensures
        match r {
            Ok((t, id)) => dependency_spec(spec@) == Ok::<(DependencyType, Seq<char>), TraceError>(
                (t, id@),
            ),
            Err(e) => dependency_spec(spec@) == Err::<(DependencyType, Seq<char>), TraceError>(e),
        },
{
    let n = spec.unicode_len();
    let mut i: usize = 0;
    while i < n && spec.get_char(i) != ':'
        invariant
            i <= n,
            n == spec@.len(),
            colon_at(spec@, 0) == colon_at(spec@, i as int),
        decreases n - i,
    {
        i += 1;
    }
    if i >= n {
        return Ok((DependencyType::Blocks, spec.to_owned()));
    }
    assert(colon_at(spec@, 0) == i);
    let type_text = spec.substring_char(0, i);
    let id_text = spec.substring_char(i + 1, n);
    assert(type_text@ =~= spec@.take(i as int));
    assert(id_text@ =~= spec@.skip(i + 1));
    match DependencyType::from_str(type_text) {
        Ok(t) => {
            proof {
                match type_named(type_text@) {
                    Some(u) => {
                        DependencyType::lemma_name_injective(t, u);
                    },
                    None => {},
                }
            }
            Ok((t, id_text.to_owned()))
        },
        Err(e) => {
            proof {
                assert(type_text@ != DependencyType::Blocks.name());
                assert(type_text@ != DependencyType::Related.name());
                assert(type_text@ != DependencyType::ParentChild.name());
                assert(type_text@ != DependencyType::DiscoveredFrom.name());
            }
            Err(e)
        },
    }
}

/// The whole seconds from `then` to `now`; none if `now` is not later.
pub open spec fn whole_seconds_between(then: Timestamp, now: Timestamp) -> int {
    let nanos = (now.secs - then.secs) * 1_000_000_000 + (now.nanos - then.nanos);
    if nanos <= 0 {
        0
    } else {
        nanos / 1_000_000_000
    }
}

/// How long ago something was, in words: in whole days if it was a day or
/// more, else in whole hours, else in whole minutes, else `just now`.
pub open spec fn time_ago_text(seconds: int) -> Seq<char> {
    if seconds / 86_400 > 0 {
        decimal((seconds / 86_400) as nat) + " days ago"@
    } else if seconds / 3_600 > 0 {
        decimal((seconds / 3_600) as nat) + " hours ago"@
    } else if seconds / 60 > 0 {
        decimal((seconds / 60) as nat) + " min ago"@
    } else {
        "just now"@
    }
}

/// How long before `now` the instant `then` was, in words.
pub fn format_time_ago(now: &Timestamp, then: &Timestamp) -> (r: String)
    ensures
        r@ == time_ago_text(whole_seconds_between(*then, *now)),
{
    let nanos: i128 = (now.secs as i128 - then.secs as i128) * 1_000_000_000 + (now.nanos as i128
        - then.nanos as i128);
    let seconds: i128 = if nanos <= 0 {
        0
    } else {
        nanos / 1_000_000_000
    };
    assert(seconds == whole_seconds_between(*then, *now));
    assert(now.secs - then.secs <= 0xffff_ffff_ffff_ffff);
    assert(nanos <= 0xffff_ffff_ffff_ffff * 1_000_000_000 + 0xffff_ffff);
    assert(0 <= seconds <= 0x1_0000_0000_0000_0004);
    if seconds / 86_400 > 0 {
        let mut out = format_number((seconds / 86_400) as u64);
        out.append(" days ago");
        out
    } else if seconds / 3_600 > 0 {
        let mut out = format_number((seconds / 3_600) as u64);
        out.append(" hours ago");
        out
    } else if seconds / 60 > 0 {
        let mut out = format_number((seconds / 60) as u64);
        out.append(" min ago");
        out
    } else {
        "just now".to_owned()
    }
}

} // verus!
