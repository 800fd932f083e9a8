//! Choosing the session to open from a `.xts` archive.
//!
//! Reading the archive is left to the caller, which reports what it finds one
//! event at a time; `next_archive_action` says what to do next.  The first
//! SSH session of the archive (in entry order) is opened; sessions that are not
//! SSH or name no host are passed over.
use vstd::prelude::*;
use crate::session::{
    launch_from_text, opt_str_view, parse_xshell_session_text, LaunchView, NativeConnectionLaunch,
    ParseXshellSessionError,
};
use crate::text::{chars_of, lower_all, to_lower};

verus! {

/// What the caller found while reading an archive.
pub enum ArchiveEvent {
    /// The archive file could not be opened.
    OpenFailed,
    /// The file is not a readable archive.
    NotAnArchive,
    /// The next entry could not be located in the archive.
    EntryFailed,
    /// The next entry: whether it is a directory, and its name.
    Entry { is_dir: bool, name: String },
    /// The content of the entry could not be read.
    ContentFailed,
    /// The content of the entry, decoded as UTF-8 (invalid sequences replaced).
    Content(String),
    /// No entries are left.
    Exhausted,
}

/// What to do after an event.
pub enum ArchiveAction {
    /// Read the content of the current entry and report it.
    ReadContent,
    /// Go on with the next entry.
    NextEntry,
    /// Stop with this outcome.
    Finish(Result<NativeConnectionLaunch, ParseXshellSessionError>),
}

/// An archive event as plain values.
pub enum EventView {
    OpenFailed,
    NotAnArchive,
    EntryFailed,
    Entry { is_dir: bool, name: Seq<char> },
    ContentFailed,
    Content(Seq<char>),
    Exhausted,
}

/// An archive action as plain values.
pub enum StepView {
    ReadContent,
    NextEntry,
    Finish(Result<LaunchView, ParseXshellSessionError>),
}

pub open spec fn event_view(event: ArchiveEvent) -> EventView {
    match event {
        ArchiveEvent::OpenFailed => EventView::OpenFailed,
        ArchiveEvent::NotAnArchive => EventView::NotAnArchive,
        ArchiveEvent::EntryFailed => EventView::EntryFailed,
        ArchiveEvent::Entry { is_dir, name } => EventView::Entry { is_dir, name: name@ },
        ArchiveEvent::ContentFailed => EventView::ContentFailed,
        ArchiveEvent::Content(text) => EventView::Content(text@),
        ArchiveEvent::Exhausted => EventView::Exhausted,
    }
}

pub open spec fn action_view(action: ArchiveAction) -> StepView {
    match action {
        ArchiveAction::ReadContent => StepView::ReadContent,
        ArchiveAction::NextEntry => StepView::NextEntry,
        ArchiveAction::Finish(Ok(NativeConnectionLaunch::Ssh(launch))) => StepView::Finish(Ok(launch@)),
        ArchiveAction::Finish(Err(e)) => StepView::Finish(Err(e)),
    }
}

/// What to do after an event, for a scan with `default_username` as the
/// fallback user name.
pub open spec fn archive_step(event: EventView, default_username: Option<Seq<char>>) -> StepView {
    match event {
        EventView::OpenFailed => StepView::Finish(Err(ParseXshellSessionError::Read)),
        EventView::NotAnArchive => StepView::Finish(Err(ParseXshellSessionError::Parse)),
        EventView::EntryFailed => StepView::Finish(Err(ParseXshellSessionError::Parse)),
        EventView::Entry { is_dir, name } => if is_session_entry(is_dir, name) {
            StepView::ReadContent
        } else {
            StepView::NextEntry
        },
        EventView::ContentFailed => StepView::Finish(Err(ParseXshellSessionError::Read)),
        EventView::Content(text) => match launch_from_text(text, default_username) {
            Err(ParseXshellSessionError::UnsupportedProtocol) => StepView::NextEntry,
            Err(ParseXshellSessionError::MissingHost) => StepView::NextEntry,
            outcome => StepView::Finish(outcome),
        },
        EventView::Exhausted => StepView::Finish(Err(ParseXshellSessionError::EmptyArchive)),
    }
}

/// `/` in place of each `\`.
pub open spec fn forward_slashes(s: Seq<char>) -> Seq<char> {
    s.map_values(|c: char| if c == '\\' { '/' } else { c })
}

/// `s` ends with `suffix`.
pub open spec fn ends_with(s: Seq<char>, suffix: Seq<char>) -> bool {
    suffix.len() <= s.len() && s.subrange(s.len() - suffix.len(), s.len() as int) == suffix
}

/// An entry that holds a session: not a directory, and named `*.xsh` (ignoring
/// ASCII case, with `\` read as `/`).
pub open spec fn is_session_entry(is_dir: bool, name: Seq<char>) -> bool {
    !is_dir && ends_with(lower_all(forward_slashes(name)), ".xsh"@)
}

/// The outcome of an event, when it ends the scan.
pub open spec fn finishes_with(action: ArchiveAction, outcome: Result<LaunchView, ParseXshellSessionError>) -> bool {
    match action {
        ArchiveAction::Finish(r) => match (r, outcome) {
            (Ok(NativeConnectionLaunch::Ssh(launch)), Ok(expected)) => launch@ == expected,
            (Err(e), Err(expected)) => e == expected,
            _ => false,
        },
        _ => false,
    }
}

/// Lower-casing and reading `\\` as `/` turns a character into `.`, `x`, `s`
/// or `h` exactly when it is that character in either ASCII case.
proof fn lemma_folded_char(c: char)
    ensures
        (to_lower(if c == '\\' { '/' } else { c }) == '.') <==> c == '.',
        (to_lower(if c == '\\' { '/' } else { c }) == 'x') <==> (c == 'x' || c == 'X'),
        (to_lower(if c == '\\' { '/' } else { c }) == 's') <==> (c == 's' || c == 'S'),
        (to_lower(if c == '\\' { '/' } else { c }) == 'h') <==> (c == 'h' || c == 'H'),
{
}

/// A file entry is read exactly when its name ends in `.xsh`, in any ASCII
/// case; nothing else in the name matters (its folders, spaces or other
/// characters), and a directory is never read.
pub proof fn law_xsh_entries_are_read(is_dir: bool, name: Seq<char>, default_username: Option<Seq<char>>)
    ensures
        archive_step(EventView::Entry { is_dir, name }, default_username) == (if !is_dir && name.len() >= 4
            && name[name.len() - 4] == '.' && (name[name.len() - 3] == 'x' || name[name.len() - 3] == 'X') && (
        name[name.len() - 2] == 's' || name[name.len() - 2] == 'S') && (name[name.len() - 1] == 'h' || name[name.len()
            - 1] == 'H') {
            StepView::ReadContent
        } else {
            StepView::NextEntry
        }),
{
    reveal_strlit(".xsh");
    let f = lower_all(forward_slashes(name));
    let n = name.len() as int;
    assert(f.len() == n);
    if n >= 4 {
        let tail = f.subrange(n - 4, n);
        assert forall|k: int| 0 <= k < 4 implies tail[k] == to_lower(
            if name[n - 4 + k] == '\\' { '/' } else { name[n - 4 + k] },
        ) by {
            assert(f[n - 4 + k] == to_lower(forward_slashes(name)[n - 4 + k]));
        }
        lemma_folded_char(name[n - 4]);
        lemma_folded_char(name[n - 3]);
        lemma_folded_char(name[n - 2]);
        lemma_folded_char(name[n - 1]);
        if tail == ".xsh"@ {
            assert(tail[0] == '.' && tail[1] == 'x' && tail[2] == 's' && tail[3] == 'h');
        }
        if tail[0] == '.' && tail[1] == 'x' && tail[2] == 's' && tail[3] == 'h' {
            assert(tail =~= ".xsh"@);
        }
    }
}

/// Whether the entry named `name` holds a session (see `is_session_entry`).
pub fn is_session_entry_name(is_dir: bool, name: &str) -> (r: bool)
    ensures
        r == is_session_entry(is_dir, name@),
{
    if is_dir {
        return false;
    }
    let v = chars_of(name);
    let mut folded: Vec<char> = Vec::new();
    let mut i: usize = 0;
    while i < v.len()
        invariant
            i <= v.len(),
            folded@ == lower_all(forward_slashes(v@.take(i as int))),
        decreases v.len() - i,
    {
        let c = if v[i] == '\\' {
            '/'
        } else {
            v[i]
        };
        folded.push(crate::text::ascii_lower(c));
        i = i + 1;
        assert(folded@ =~= lower_all(forward_slashes(v@.take(i as int))));
    }
    assert(v@.take(v.len() as int) =~= v@);
    let suffix = chars_of(".xsh");
    if folded.len() < suffix.len() {
        return false;
    }
    let start = folded.len() - suffix.len();
    let mut j: usize = 0;
    while j < suffix.len()
        invariant
            folded@ == lower_all(forward_slashes(v@)),
            v@ == name@,
            !is_dir,
            suffix@ == ".xsh"@,
            start == folded.len() - suffix.len(),
            j <= suffix.len(),
            forall|l: int| 0 <= l < j ==> folded@[start + l] == suffix@[l],
        decreases suffix.len() - j,
    {
        if folded[start + j] != suffix[j] {
            assert(folded@.subrange(start as int, folded.len() as int)[j as int] != suffix@[j as int]);
            return false;
        }
        j = j + 1;
    }
    assert(folded@.subrange(start as int, folded.len() as int) =~= suffix@);
    true
}

/// What to do after `event`, reading an archive for a session to open with
/// `default_username` as the fallback user name.
pub fn next_archive_action(event: &ArchiveEvent, default_username: Option<&str>) -> (r: ArchiveAction)
    ensures
        match event {
            ArchiveEvent::OpenFailed => finishes_with(r, Err(ParseXshellSessionError::Read)),
            ArchiveEvent::NotAnArchive => finishes_with(r, Err(ParseXshellSessionError::Parse)),
            ArchiveEvent::EntryFailed => finishes_with(r, Err(ParseXshellSessionError::Parse)),
            ArchiveEvent::Entry { is_dir, name } => if is_session_entry(*is_dir, name@) {
                r is ReadContent
            } else {
                r is NextEntry
            },
            ArchiveEvent::ContentFailed => finishes_with(r, Err(ParseXshellSessionError::Read)),
            ArchiveEvent::Content(text) => match launch_from_text(text@, opt_str_view(default_username)) {
                Err(ParseXshellSessionError::UnsupportedProtocol) => r is NextEntry,
                Err(ParseXshellSessionError::MissingHost) => r is NextEntry,
                outcome => finishes_with(r, outcome),
            },
            ArchiveEvent::Exhausted => finishes_with(r, Err(ParseXshellSessionError::EmptyArchive)),
        },
        action_view(r) == archive_step(event_view(*event), opt_str_view(default_username)),
{
    match event {
        ArchiveEvent::OpenFailed => ArchiveAction::Finish(Err(ParseXshellSessionError::Read)),
        ArchiveEvent::NotAnArchive => ArchiveAction::Finish(Err(ParseXshellSessionError::Parse)),
        ArchiveEvent::EntryFailed => ArchiveAction::Finish(Err(ParseXshellSessionError::Parse)),
        ArchiveEvent::Entry { is_dir, name } => {
            if is_session_entry_name(*is_dir, name.as_str()) {
                ArchiveAction::ReadContent
            } else {
                ArchiveAction::NextEntry
            }
        },
        ArchiveEvent::ContentFailed => ArchiveAction::Finish(Err(ParseXshellSessionError::Read)),
        ArchiveEvent::Content(text) => {
            match parse_xshell_session_text(text.as_str(), default_username) {
                Ok(launch) => ArchiveAction::Finish(Ok(NativeConnectionLaunch::Ssh(launch))),
                Err(ParseXshellSessionError::UnsupportedProtocol) => ArchiveAction::NextEntry,
                Err(ParseXshellSessionError::MissingHost) => ArchiveAction::NextEntry,
                Err(error) => ArchiveAction::Finish(Err(error)),
            }
        },
        ArchiveEvent::Exhausted => ArchiveAction::Finish(Err(ParseXshellSessionError::EmptyArchive)),
    }
}

/// The outcome of a scan that follows `archive_step` over readable entries,
/// each given as (is a directory, name, text), as a caller reading them in
/// order does: an entry event, then its content when asked for, until an
/// event finishes the scan or the entries run out.
pub open spec fn scan_by_steps(entries: Seq<(bool, Seq<char>, Seq<char>)>, default_username: Option<Seq<char>>) -> Result<
    LaunchView,
    ParseXshellSessionError,
>
    decreases entries.len(),
{
    if entries.len() == 0 {
        match archive_step(EventView::Exhausted, default_username) {
            StepView::Finish(outcome) => outcome,
            _ => Err(ParseXshellSessionError::EmptyArchive),
        }
    } else {
        let entry = entries[0];
        match archive_step(EventView::Entry { is_dir: entry.0, name: entry.1 }, default_username) {
            StepView::Finish(outcome) => outcome,
            StepView::NextEntry => scan_by_steps(entries.skip(1), default_username),
            StepView::ReadContent => match archive_step(EventView::Content(entry.2), default_username) {
                StepView::Finish(outcome) => outcome,
                _ => scan_by_steps(entries.skip(1), default_username),
            },
        }
    }
}

/// What an archive opens: the first session entry (see `is_session_entry`)
/// whose text opens, or fails otherwise than by naming another protocol or no
/// host, decides; with no such entry the archive is empty of sessions.
pub open spec fn first_usable_session(entries: Seq<(bool, Seq<char>, Seq<char>)>, default_username: Option<Seq<char>>) -> Result<
    LaunchView,
    ParseXshellSessionError,
>
    decreases entries.len(),
{
    if entries.len() == 0 {
        Err(ParseXshellSessionError::EmptyArchive)
    } else if !is_session_entry(entries[0].0, entries[0].1) {
        first_usable_session(entries.skip(1), default_username)
    } else {
        match launch_from_text(entries[0].2, default_username) {
            Err(ParseXshellSessionError::UnsupportedProtocol) => first_usable_session(entries.skip(1), default_username),
            Err(ParseXshellSessionError::MissingHost) => first_usable_session(entries.skip(1), default_username),
            outcome => outcome,
        }
    }
}

/// Following `next_archive_action` over the entries of an archive opens its
/// first usable SSH session: non-session entries, and sessions of another
/// protocol or with no host, are passed over.
pub proof fn law_archive_scan_opens_first_usable_session(
    entries: Seq<(bool, Seq<char>, Seq<char>)>,
    default_username: Option<Seq<char>>,
)
    ensures
        scan_by_steps(entries, default_username) == first_usable_session(entries, default_username),
    decreases entries.len(),
{
    if entries.len() > 0 {
        law_archive_scan_opens_first_usable_session(entries.skip(1), default_username);
    }
}

/// The session entries of an archive, in order.
pub open spec fn session_entries(entries: Seq<(bool, Seq<char>, Seq<char>)>) -> Seq<(bool, Seq<char>, Seq<char>)>
    decreases entries.len(),
{
    if entries.len() == 0 {
        entries
    } else if is_session_entry(entries[0].0, entries[0].1) {
        seq![entries[0]] + session_entries(entries.skip(1))
    } else {
        session_entries(entries.skip(1))
    }
}

/// Only the session entries of an archive decide what it opens.
proof fn lemma_only_session_entries_count(
    entries: Seq<(bool, Seq<char>, Seq<char>)>,
    default_username: Option<Seq<char>>,
)
    ensures
        first_usable_session(entries, default_username) == first_usable_session(
            session_entries(entries),
            default_username,
        ),
    decreases entries.len(),
{
    if entries.len() > 0 {
        lemma_only_session_entries_count(entries.skip(1), default_username);
        if is_session_entry(entries[0].0, entries[0].1) {
            let s = session_entries(entries);
            assert(s[0] == entries[0]);
            assert(s.skip(1) =~= session_entries(entries.skip(1)));
        }
    }
}

/// Directories and entries not named `*.xsh` never change what an archive
/// opens: archives with the same session entries, in the same order, open the same.
pub proof fn law_non_session_entries_never_matter(
    first: Seq<(bool, Seq<char>, Seq<char>)>,
    second: Seq<(bool, Seq<char>, Seq<char>)>,
    default_username: Option<Seq<char>>,
)
    requires
        session_entries(first) == session_entries(second),
    ensures
        first_usable_session(first, default_username) == first_usable_session(second, default_username),
{
    lemma_only_session_entries_count(first, default_username);
    lemma_only_session_entries_count(second, default_username);
}

} // verus!
