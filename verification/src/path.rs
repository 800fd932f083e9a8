//! Recognising Xshell session files (`.xsh`) and archives (`.xts`) by path.
use vstd::prelude::*;
use crate::session::{opt_str_view, ParseXshellSessionError};
use crate::text::{chars_eq_ignore_ascii_case, chars_of, eq_ignore_ascii_case, lower_all, to_lower};

verus! {

/// Index of the last occurrence of `c` in `s`.
pub open spec fn last_index_of(s: Seq<char>, c: char) -> Option<int>
    decreases s.len(),
{
    if s.len() == 0 {
        None
    } else if s.last() == c {
        Some(s.len() - 1)
    } else {
        last_index_of(s.drop_last(), c)
    }
}

/// The extension of a file name: what follows its final `.`; none when it has
/// no `.`, or when its only `.` is the first character.
pub open spec fn file_name_extension(name: Seq<char>) -> Option<Seq<char>> {
    match last_index_of(name, '.') {
        None => None,
        Some(i) => if i == 0 {
            None
        } else {
            Some(name.subrange(i + 1, name.len() as int))
        },
    }
}

/// A path that is a bare file name on every platform: no `/`, `\\` or `:`
/// (so neither a separator nor a drive prefix), and neither `.` nor `..`.
pub open spec fn is_bare_file_name(path: Seq<char>) -> bool {
    &&& forall|i: int| 0 <= i < path.len() ==> path[i] != '/' && path[i] != '\\' && path[i] != ':'
    &&& path != seq!['.']
    &&& path != seq!['.', '.']
}

/// A path separator on some platform (`/` everywhere, `\\` on Windows).
pub open spec fn is_separator(c: char) -> bool {
    c == '/' || c == '\\'
}

/// A path that begins with two separators (network and verbatim paths on Windows).
pub open spec fn begins_with_two_separators(path: Seq<char>) -> bool {
    path.len() >= 2 && is_separator(path[0]) && is_separator(path[1])
}

/// `path` is `stem` `.` `ext`, where `ext` is not empty and holds no `.`,
/// separator or `:`, `stem` is not empty and ends with neither a separator nor
/// `:`, and the path does not begin with two separators.  On every platform the
/// final component of such a path ends with a character of `stem` followed by
/// `.ext`, so its extension is `ext`.
pub open spec fn ends_in_extension(path: Seq<char>, stem: Seq<char>, ext: Seq<char>) -> bool {
    &&& path == stem + seq!['.'] + ext
    &&& ext.len() > 0
    &&& forall|i: int| 0 <= i < ext.len() ==> ext[i] != '.' && !is_separator(ext[i]) && ext[i] != ':'
    &&& stem.len() > 0
    &&& !is_separator(stem.last())
    &&& stem.last() != ':'
    &&& !begins_with_two_separators(path)
}

/// `path[slash]` is a `/` after which the path is a bare file name (see
/// `is_bare_file_name`), and the path does not begin with two separators.  On
/// every platform that bare name is then the path's file name.
pub open spec fn ends_in_bare_name_after(path: Seq<char>, slash: int) -> bool {
    &&& 0 <= slash < path.len() - 1
    &&& path[slash] == '/'
    &&& is_bare_file_name(path.subrange(slash + 1, path.len() as int))
    &&& !begins_with_two_separators(path)
}

/// `path` is `\\` + `lead` + `\` + `stem` + `.` + `ext` with no `/` anywhere: a
/// Windows network or device path whose last part is `stem.ext`.  `ext` is
/// not empty and holds no `.`, `\` or `:`; `stem` is not empty and holds no
/// `\` or `:`; `lead` has at least two parts (as in `server\share`), and at
/// least four when it begins with `?\` or `.\` (the verbatim and device
/// prefixes, which take up to four parts, as in `\\?\UNC\server\share`).  On
/// Windows the last part is then the file name, after the prefix; elsewhere
/// the whole path is one file name, which ends in `.ext` after a character of
/// `stem`.  Either way the extension is `ext`.
pub open spec fn ends_in_network_extension(path: Seq<char>, lead: Seq<char>, stem: Seq<char>, ext: Seq<char>) -> bool {
    &&& path == seq!['\\', '\\'] + lead + seq!['\\'] + stem + seq!['.'] + ext
    &&& !path.contains('/')
    &&& ext.len() > 0
    &&& forall|i: int| 0 <= i < ext.len() ==> ext[i] != '.' && ext[i] != '\\' && ext[i] != ':'
    &&& stem.len() > 0
    &&& forall|i: int| 0 <= i < stem.len() ==> stem[i] != '\\' && stem[i] != ':'
    &&& lead.contains('\\')
    &&& (lead.len() >= 2 && (lead[0] == '?' || lead[0] == '.') && lead[1] == '\\') ==> lead.filter(
        |c: char| c == '\\',
    ).len() >= 3
}

/// `path` without what every platform ignores at its end: trailing `/`s, and
/// a final `.` component after a `/` (a `.` anywhere but at the start of a
/// path names no component of its own).  The first character always stays.
pub open spec fn trim_path_end(path: Seq<char>) -> Seq<char>
    decreases path.len(),
{
    if path.len() >= 2 && path.last() == '/' {
        trim_path_end(path.drop_last())
    } else if path.len() >= 2 && path.last() == '.' && path[path.len() - 2] == '/' {
        trim_path_end(path.drop_last())
    } else {
        path
    }
}

/// `path` ends in a component that is `.` or `..` (after `trim_path_end`):
/// it is `.` or `..` itself, or it ends in `/..` and does not begin with two
/// separators.  Such a path has no file name on any platform.
pub open spec fn ends_in_dot_component(path: Seq<char>) -> bool {
    let t = trim_path_end(path);
    ||| t == seq!['.']
    ||| t == seq!['.', '.']
    ||| (t.len() >= 3 && t.subrange(t.len() - 3, t.len() as int) == seq!['/', '.', '.']
        && !begins_with_two_separators(t))
}

/// `std::path::Path::extension` of `path`, as text.
///
/// Claimed of the standard library (its documentation): the extension is the
/// part of the file name after its final `.`, so it holds no `.`, it stands in
/// the path right after a `.`, and a path without any `.` has none; it is
/// none as well when the file name begins with `.` and has no other `.`.  A
/// path whose last component is `.` or `..` has no file name, so no extension
/// (see `ends_in_dot_component`).  Trailing `/`s and a final `/.` are ignored
/// (see `trim_path_end`); after them, a bare file name (see
/// `is_bare_file_name`) is its own file name, so its extension is
/// `file_name_extension` of it; so is the bare name after the last `/` of a
/// path (see `ends_in_bare_name_after`); and a path that ends in `.ext` after
/// a character that is part of its file name has the extension `ext` (see
/// `ends_in_extension`); so does a network path whose last part is
/// `stem.ext` (see `ends_in_network_extension`).  `Path::new` and
/// `OsStr::to_str` only convert between
/// `&str` and `Path` / `OsStr` (and `to_str` cannot fail on a slice of a
/// `&str`).  For the remaining paths (ending in `\`, beginning with two
/// separators but not of that form, or ending in a name that Windows and Unix
/// split differently), the exact extension is left unsaid.
#[verifier::external_body]
fn path_extension(path: &str) -> (r: Option<&str>)
    ensures
        r matches Some(e) ==> {
            &&& !e@.contains('.')
            &&& exists|i: int|
                0 <= i && i + 1 + e@.len() <= path@.len() && path@[i] == '.' && path@.subrange(
                    i + 1,
                    i + 1 + e@.len(),
                ) == e@
        },
        (forall|i: int| 0 <= i < path@.len() ==> path@[i] != '.') ==> r is None,
        ends_in_dot_component(path@) ==> r is None,
        is_bare_file_name(trim_path_end(path@)) ==> opt_str_view(r) == file_name_extension(trim_path_end(path@)),
        forall|stem: Seq<char>, ext: Seq<char>| #[trigger] ends_in_extension(trim_path_end(path@), stem, ext)
            ==> opt_str_view(r) == Some(ext),
        forall|slash: int| #[trigger] ends_in_bare_name_after(trim_path_end(path@), slash) ==> opt_str_view(r)
            == file_name_extension(trim_path_end(path@).subrange(slash + 1, trim_path_end(path@).len() as int)),
        forall|lead: Seq<char>, stem: Seq<char>, ext: Seq<char>| #[trigger] ends_in_network_extension(
            path@,
            lead,
            stem,
            ext,
        ) ==> opt_str_view(r) == Some(ext),
{
    std::path::Path::new(path).extension().and_then(|extension| extension.to_str())
}

/// What kind of session file a path names.
#[derive(Clone, Copy, Debug, PartialEq, Eq, Structural)]
pub enum SessionFileKind {
    /// A single `.xsh` session.
    Session,
    /// A `.xts` archive of sessions.
    Archive,
}

/// The kind of session file with extension `extension` (compared ignoring
/// ASCII case), or `InvalidPath` for any other extension or none.
pub open spec fn kind_of_extension(extension: Option<Seq<char>>) -> Result<SessionFileKind, ParseXshellSessionError> {
    match extension {
        Some(e) => if eq_ignore_ascii_case(e, "xts"@) {
            Ok(SessionFileKind::Archive)
        } else if eq_ignore_ascii_case(e, "xsh"@) {
            Ok(SessionFileKind::Session)
        } else {
            Err(ParseXshellSessionError::InvalidPath)
        },
        None => Err(ParseXshellSessionError::InvalidPath),
    }
}

/// The kind of session file that a path with this extension holds.
pub fn session_file_kind_of_extension(extension: Option<&str>) -> (r: Result<SessionFileKind, ParseXshellSessionError>)
    ensures
        r == kind_of_extension(opt_str_view(extension)),
{
    match extension {
        Some(e) => {
            let e = chars_of(e);
            let xts = chars_of("xts");
            let xsh = chars_of("xsh");
            if chars_eq_ignore_ascii_case(&e, &xts) {
                Ok(SessionFileKind::Archive)
            } else if chars_eq_ignore_ascii_case(&e, &xsh) {
                Ok(SessionFileKind::Session)
            } else {
                Err(ParseXshellSessionError::InvalidPath)
            }
        },
        None => Err(ParseXshellSessionError::InvalidPath),
    }
}

/// The kind of session file whose extension is `path[dot + 1..end]`.
pub open spec fn extension_kind_at(path: Seq<char>, dot: int, end: int) -> Result<SessionFileKind, ParseXshellSessionError> {
    kind_of_extension(Some(path.subrange(dot + 1, end)))
}

/// Some `.`-preceded stretch of `path`, holding no `.`, has the kind `kind`.
pub open spec fn has_extension_of_kind(path: Seq<char>, kind: SessionFileKind) -> bool {
    exists|dot: int, end: int|
        0 <= dot < end <= path.len() && path[dot] == '.' && !path.subrange(dot + 1, end).contains('.')
            && #[trigger] extension_kind_at(path, dot, end) == Ok::<SessionFileKind, ParseXshellSessionError>(kind)
}

/// The kind of session file that `path` names, by its extension (ignoring
/// ASCII case): `.xsh` is a session, `.xts` an archive; anything else is
/// `InvalidPath`.
pub fn session_file_kind(path: &str) -> (r: Result<SessionFileKind, ParseXshellSessionError>)
    ensures
        r matches Ok(kind) ==> has_extension_of_kind(path@, kind),
        r matches Err(e) ==> e == ParseXshellSessionError::InvalidPath,
        (forall|i: int| 0 <= i < path@.len() ==> path@[i] != '.') ==> r == Err::<
            SessionFileKind,
            ParseXshellSessionError,
        >(ParseXshellSessionError::InvalidPath),
        ends_in_dot_component(path@) ==> r == Err::<SessionFileKind, ParseXshellSessionError>(
            ParseXshellSessionError::InvalidPath,
        ),
        is_bare_file_name(trim_path_end(path@)) ==> r == kind_of_extension(file_name_extension(trim_path_end(path@))),
        forall|stem: Seq<char>, ext: Seq<char>| #[trigger] ends_in_extension(trim_path_end(path@), stem, ext) ==> r
            == kind_of_extension(Some(ext)),
        forall|slash: int| #[trigger] ends_in_bare_name_after(trim_path_end(path@), slash) ==> r == kind_of_extension(
            file_name_extension(trim_path_end(path@).subrange(slash + 1, trim_path_end(path@).len() as int)),
        ),
        forall|lead: Seq<char>, stem: Seq<char>, ext: Seq<char>| #[trigger] ends_in_network_extension(
            path@,
            lead,
            stem,
            ext,
        ) ==> r == kind_of_extension(Some(ext)),
{
    let extension = path_extension(path);
    let r = session_file_kind_of_extension(extension);
    proof {
        if let Some(e) = extension {
            if let Ok(kind) = r {
                let i = choose|i: int|
                    0 <= i && i + 1 + e@.len() <= path@.len() && path@[i] == '.' && path@.subrange(
                        i + 1,
                        i + 1 + e@.len(),
                    ) == e@;
                assert(path@.subrange(i + 1, i + 1 + e@.len()) == e@);
                let end = i + 1 + e@.len();
                assert(extension_kind_at(path@, i, end) == Ok::<SessionFileKind, ParseXshellSessionError>(kind));
            }
        }
    }
    r
}

/// True when `path` looks like an Xshell session file (`.xsh` or `.xts`,
/// ignoring ASCII case).
pub fn is_xshell_session_path(path: &str) -> (r: bool)
    ensures
        r ==> has_extension_of_kind(path@, SessionFileKind::Session) || has_extension_of_kind(
            path@,
            SessionFileKind::Archive,
        ),
        (forall|i: int| 0 <= i < path@.len() ==> path@[i] != '.') ==> !r,
        ends_in_dot_component(path@) ==> !r,
        is_bare_file_name(trim_path_end(path@)) ==> r == (kind_of_extension(file_name_extension(trim_path_end(path@)))
            is Ok),
        forall|stem: Seq<char>, ext: Seq<char>| #[trigger] ends_in_extension(trim_path_end(path@), stem, ext) ==> r
            == (kind_of_extension(Some(ext)) is Ok),
        forall|slash: int| #[trigger] ends_in_bare_name_after(trim_path_end(path@), slash) ==> r == (
        kind_of_extension(
            file_name_extension(trim_path_end(path@).subrange(slash + 1, trim_path_end(path@).len() as int)),
        ) is Ok),
        forall|lead: Seq<char>, stem: Seq<char>, ext: Seq<char>| #[trigger] ends_in_network_extension(
            path@,
            lead,
            stem,
            ext,
        ) ==> r == (kind_of_extension(Some(ext)) is Ok),
{
    match session_file_kind(path) {
        Ok(_) => true,
        Err(_) => false,
    }
}

/// A text with none of `/`, `\` and `:`.
pub open spec fn is_plain_part(s: Seq<char>) -> bool {
    forall|i: int| 0 <= i < s.len() ==> s[i] != '/' && s[i] != '\\' && s[i] != ':'
}

/// Every network path `\\server\share\name.ext` has the extension `ext`
/// (see `ends_in_network_extension`), so `session_file_kind` and
/// `is_xshell_session_path` judge it by `ext`: the server, share and name hold
/// no separator or `:`, the name is not empty, the extension is not empty and
/// holds no `.`, and the server is not `?` or `.` alone.
pub proof fn law_network_paths_have_their_extension(
    server: Seq<char>,
    share: Seq<char>,
    name: Seq<char>,
    ext: Seq<char>,
)
    requires
        is_plain_part(server),
        is_plain_part(share),
        is_plain_part(name),
        is_plain_part(ext),
        name.len() > 0,
        ext.len() > 0,
        !ext.contains('.'),
        server != seq!['?'],
        server != seq!['.'],
    ensures
        ends_in_network_extension(
            seq!['\\', '\\'] + server + seq!['\\'] + share + seq!['\\'] + name + seq!['.'] + ext,
            server + seq!['\\'] + share,
            name,
            ext,
        ),
{
    let lead = server + seq!['\\'] + share;
    let path = seq!['\\', '\\'] + server + seq!['\\'] + share + seq!['\\'] + name + seq!['.'] + ext;
    assert(path =~= seq!['\\', '\\'] + lead + seq!['\\'] + name + seq!['.'] + ext);
    assert(lead[server.len() as int] == '\\');
    assert(lead.contains('\\'));
    assert forall|i: int| 0 <= i < path.len() implies path[i] != '/' by {
        let a = 2 + server.len();
        let b = a + 1 + share.len();
        let c = b + 1 + name.len();
        if 2 <= i < a {
            assert(path[i] == server[i - 2]);
        } else if a < i < b {
            assert(path[i] == share[i - a - 1]);
        } else if b < i < c {
            assert(path[i] == name[i - b - 1]);
        } else if c < i {
            assert(path[i] == ext[i - c - 1]);
        }
    }
    assert forall|i: int| 0 <= i < ext.len() implies ext[i] != '.' && ext[i] != '\\' && ext[i] != ':' by {
        assert(ext.contains(ext[i]) ==> ext[i] != '.');
    }
    if lead.len() >= 2 && (lead[0] == '?' || lead[0] == '.') && lead[1] == '\\' {
        if server.len() == 0 {
            assert(lead[0] == '\\');
        } else if server.len() == 1 {
            assert(server =~= seq![lead[0]]);
        } else {
            assert(lead[1] == server[1]);
        }
    }
}

/// Exactly two extensions are recognised, in any ASCII case: `xts` names an
/// archive and `xsh` a session; every other extension (`ini`, `xs`, `xshx`,
/// the empty one), and no extension at all, is `InvalidPath`.
pub proof fn law_only_xsh_and_xts_are_recognised(extension: Option<Seq<char>>)
    ensures
        (kind_of_extension(extension) == Ok::<SessionFileKind, ParseXshellSessionError>(SessionFileKind::Archive))
            <==> (extension matches Some(e) && e.len() == 3 && (e[0] == 'x' || e[0] == 'X') && (e[1] == 't' || e[1]
            == 'T') && (e[2] == 's' || e[2] == 'S')),
        (kind_of_extension(extension) == Ok::<SessionFileKind, ParseXshellSessionError>(SessionFileKind::Session))
            <==> (extension matches Some(e) && e.len() == 3 && (e[0] == 'x' || e[0] == 'X') && (e[1] == 's' || e[1]
            == 'S') && (e[2] == 'h' || e[2] == 'H')),
        kind_of_extension(extension) is Err ==> kind_of_extension(extension) == Err::<
            SessionFileKind,
            ParseXshellSessionError,
        >(ParseXshellSessionError::InvalidPath),
{
    reveal_strlit("xts");
    reveal_strlit("xsh");
    if let Some(e) = extension {
        if e.len() == 3 {
            assert(eq_ignore_ascii_case(e, "xts"@) <==> (to_lower(e[0]) == 'x' && to_lower(e[1]) == 't' && to_lower(
                e[2],
            ) == 's'));
            assert(eq_ignore_ascii_case(e, "xsh"@) <==> (to_lower(e[0]) == 'x' && to_lower(e[1]) == 's' && to_lower(
                e[2],
            ) == 'h'));
        }
    }
}

/// Session file extensions are recognised whatever their ASCII case.
pub proof fn law_extension_case_is_ignored(extension: Seq<char>)
    ensures
        kind_of_extension(Some(extension)) == kind_of_extension(Some(lower_all(extension))),
{
    assert forall|c: char| #[trigger] to_lower(to_lower(c)) == to_lower(c) by {
        if 'A' <= c && c <= 'Z' {
            assert(!('A' <= to_lower(c) && to_lower(c) <= 'Z'));
        }
    }
    let l = lower_all(extension);
    assert forall|x: Seq<char>| eq_ignore_ascii_case(extension, x) == eq_ignore_ascii_case(l, x) by {
        if extension.len() == x.len() {
            assert forall|i: int| 0 <= i < extension.len() implies to_lower(#[trigger] l[i]) == to_lower(
                extension[i],
            ) by {
                assert(l[i] == to_lower(extension[i]));
                assert(to_lower(to_lower(extension[i])) == to_lower(extension[i]));
            }
            if eq_ignore_ascii_case(extension, x) {
                assert forall|i: int| 0 <= i < l.len() implies to_lower(#[trigger] l[i]) == to_lower(x[i]) by {
                    assert(to_lower(l[i]) == to_lower(extension[i]));
                }
            }
            if eq_ignore_ascii_case(l, x) {
                assert forall|i: int| 0 <= i < extension.len() implies to_lower(#[trigger] extension[i]) == to_lower(
                    x[i],
                ) by {
                    assert(to_lower(l[i]) == to_lower(extension[i]));
                }
            }
        }
    }
}

} // verus!
