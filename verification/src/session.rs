//! From Xshell `.xsh` session text to a temporary SSH launch.
use vstd::prelude::*;
use crate::fields::KeyTest;
use crate::ini::{
    first_field_chars, first_field_of, ini_sections, parse_ini_chars, password_field, password_field_of,
    section_fields, section_fields_of, str_views, sub_chars, PasswordField,
};
use crate::text::{
    lemma_strip_idempotent, lemma_strip_unchanged, chars_eq_ignore_ascii_case, chars_equal, chars_of, chars_to_lower, eq_ignore_ascii_case, lower_all,
    decimal_value, parse_u16, parse_u16_range, string_from_chars, strip, strip_range, trim, CharClass,
};

verus! {

/// The SSH port used when a session names none (or none that is usable).
pub const DEFAULT_SSH_PORT: u16 = 22;

/// Why a session could not be opened.
#[derive(Clone, Copy, Debug, PartialEq, Eq, Structural)]
pub enum ParseXshellSessionError {
    Empty,
    InvalidPath,
    Read,
    Parse,
    UnsupportedProtocol,
    MissingHost,
    EmptyArchive,
}

impl ParseXshellSessionError {
    pub open spec fn message_text(self) -> Seq<char> {
        match self {
            ParseXshellSessionError::Empty => "Xshell session content is empty"@,
            ParseXshellSessionError::InvalidPath => "path is not an Xshell .xsh or .xts session"@,
            ParseXshellSessionError::Read => "failed to read Xshell session file"@,
            ParseXshellSessionError::Parse => "failed to parse Xshell session file"@,
            ParseXshellSessionError::UnsupportedProtocol => "Xshell session protocol is not SSH"@,
            ParseXshellSessionError::MissingHost => "Xshell session is missing a host"@,
            ParseXshellSessionError::EmptyArchive => "Xshell archive contains no SSH session files"@,
        }
    }

    /// The human-readable description of the error.
    pub fn message(&self) -> (r: &'static str)
        ensures
            r@ == self.message_text(),
    {
        match self {
            ParseXshellSessionError::Empty => "Xshell session content is empty",
            ParseXshellSessionError::InvalidPath => "path is not an Xshell .xsh or .xts session",
            ParseXshellSessionError::Read => "failed to read Xshell session file",
            ParseXshellSessionError::Parse => "failed to parse Xshell session file",
            ParseXshellSessionError::UnsupportedProtocol => "Xshell session protocol is not SSH",
            ParseXshellSessionError::MissingHost => "Xshell session is missing a host",
            ParseXshellSessionError::EmptyArchive => "Xshell archive contains no SSH session files",
        }
    }
}

/// An ephemeral SSH connection request built from a session.
#[derive(Debug, PartialEq, Eq)]
pub struct TemporarySshLaunch {
    pub username: String,
    pub host: String,
    pub port: u16,
    /// `Some("")` asks for an empty password; `None` leaves authentication to
    /// the key or the SSH agent.
    pub password: Option<String>,
    pub key_path: Option<String>,
}

/// A connection request that the native application can open.
#[derive(Debug, PartialEq, Eq)]
pub enum NativeConnectionLaunch {
    Ssh(TemporarySshLaunch),
}

/// The abstract content of a `TemporarySshLaunch`.
pub struct LaunchView {
    pub username: Seq<char>,
    pub host: Seq<char>,
    pub port: u16,
    pub password: Option<Seq<char>>,
    pub key_path: Option<Seq<char>>,
}

pub open spec fn opt_view(s: Option<String>) -> Option<Seq<char>> {
    match s {
        Some(v) => Some(v@),
        None => None,
    }
}

pub open spec fn opt_str_view(s: Option<&str>) -> Option<Seq<char>> {
    match s {
        Some(v) => Some(v@),
        None => None,
    }
}

impl View for TemporarySshLaunch {
    type V = LaunchView;

    open spec fn view(&self) -> LaunchView {
        LaunchView {
            username: self.username@,
            host: self.host@,
            port: self.port,
            password: opt_view(self.password),
            key_path: opt_view(self.key_path),
        }
    }
}

pub open spec fn connection_section_names() -> Seq<Seq<char>> {
    seq!["CONNECTION"@, "Connection"@]
}

pub open spec fn authentication_section_names() -> Seq<Seq<char>> {
    seq!["CONNECTION:AUTHENTICATION"@, "CONNECTION:Authentication"@, "AUTHENTICATION"@, "Authentication"@]
}

pub open spec fn protocol_keys() -> Seq<Seq<char>> {
    seq!["Protocol"@, "protocol"@]
}

pub open spec fn host_keys() -> Seq<Seq<char>> {
    seq!["Host"@, "host"@, "Hostname"@, "hostname"@]
}

pub open spec fn port_keys() -> Seq<Seq<char>> {
    seq!["Port"@, "port"@, "SshPort"@, "sshport"@]
}

pub open spec fn user_keys() -> Seq<Seq<char>> {
    seq!["UserName"@, "Username"@, "userName"@, "User"@, "user"@]
}

pub open spec fn key_path_keys() -> Seq<Seq<char>> {
    seq!["PrivateKey"@, "privatekey"@, "IdentityFile"@, "identityfile"@, "KeyFile"@, "keyfile"@]
}

/// `a`, or `b` when `a` is `None`.
pub open spec fn or_else<T>(a: Option<T>, b: Option<T>) -> Option<T> {
    if a is Some {
        a
    } else {
        b
    }
}

/// The trimmed text, when it is not blank.
pub open spec fn trimmed_non_blank(v: Option<Seq<char>>) -> Option<Seq<char>> {
    match v {
        Some(t) => if trim(t).len() > 0 {
            Some(trim(t))
        } else {
            None
        },
        None => None,
    }
}

/// A loopback host: `127.0.0.1`, `localhost` or `::1`, ignoring surrounding
/// white space and brackets and ASCII case.
pub open spec fn is_loopback(host: Seq<char>) -> bool {
    let h = lower_all(strip(trim(host), CharClass::Bracket));
    h == "127.0.0.1"@ || h == "localhost"@ || h == "::1"@
}

/// The port of a `[CONNECTION]` table: a positive 16-bit number, else the default.
pub open spec fn session_port(connection: Map<Seq<char>, Seq<char>>) -> u16 {
    match first_field_of(connection, port_keys()) {
        Some(v) => match parse_u16(trim(v)) {
            Some(p) => if p > 0 {
                p
            } else {
                DEFAULT_SSH_PORT
            },
            None => DEFAULT_SSH_PORT,
        },
        None => DEFAULT_SSH_PORT,
    }
}

/// The user name: the authentication table's, else the connection table's,
/// trimmed; when that is missing or blank, the trimmed default; else empty.
pub open spec fn session_username(
    authentication: Map<Seq<char>, Seq<char>>,
    connection: Map<Seq<char>, Seq<char>>,
    default_username: Option<Seq<char>>,
) -> Seq<char> {
    match trimmed_non_blank(or_else(first_field_of(authentication, user_keys()), first_field_of(connection, user_keys()))) {
        Some(u) => u,
        None => match trimmed_non_blank(default_username) {
            Some(d) => d,
            None => Seq::empty(),
        },
    }
}

/// The private key path: the authentication table's, else the connection
/// table's, trimmed, when not blank.
pub open spec fn session_key_path(
    authentication: Map<Seq<char>, Seq<char>>,
    connection: Map<Seq<char>, Seq<char>>,
) -> Option<Seq<char>> {
    trimmed_non_blank(or_else(first_field_of(authentication, key_path_keys()), first_field_of(connection, key_path_keys())))
}

/// The password field that decides: the authentication table's, else the
/// connection table's, else `Omitted`.
pub open spec fn session_password_field(
    authentication: Map<Seq<char>, Seq<char>>,
    connection: Map<Seq<char>, Seq<char>>,
) -> PasswordField {
    match or_else(password_field_of(authentication), password_field_of(connection)) {
        Some(f) => f,
        None => PasswordField::Omitted,
    }
}

/// The password of the launch: empty when the session's password is blank,
/// or when it is encrypted or omitted on a loopback host with no key path;
/// otherwise none (encrypted values are never used).
pub open spec fn session_password(field: PasswordField, key_path: Option<Seq<char>>, host: Seq<char>) -> Option<Seq<char>> {
    if field == PasswordField::Empty {
        Some(Seq::empty())
    } else if key_path is None && is_loopback(host) {
        Some(Seq::empty())
    } else {
        None
    }
}

/// The `[CONNECTION]` table of a session text.
pub open spec fn connection_table(text: Seq<char>) -> Map<Seq<char>, Seq<char>> {
    section_fields_of(ini_sections(trim(text)), connection_section_names())
}

/// The `[CONNECTION:AUTHENTICATION]` (or `[AUTHENTICATION]`) table of a session text.
pub open spec fn authentication_table(text: Seq<char>) -> Map<Seq<char>, Seq<char>> {
    section_fields_of(ini_sections(trim(text)), authentication_section_names())
}

/// The protocol that a session text names, if any.
pub open spec fn session_protocol(text: Seq<char>) -> Option<Seq<char>> {
    or_else(first_field_of(connection_table(text), protocol_keys()), first_field_of(authentication_table(text), protocol_keys()))
}

/// What a session text opens, or why it cannot.
pub open spec fn launch_from_text(text: Seq<char>, default_username: Option<Seq<char>>) -> Result<LaunchView, ParseXshellSessionError> {
    let trimmed = trim(text);
    if trimmed.len() == 0 {
        Err(ParseXshellSessionError::Empty)
    } else {
        let connection = connection_table(text);
        let authentication = authentication_table(text);
        if session_protocol(text) matches Some(p) && !eq_ignore_ascii_case(p, "ssh"@) {
            Err(ParseXshellSessionError::UnsupportedProtocol)
        } else {
            match trimmed_non_blank(first_field_of(connection, host_keys())) {
                None => Err(ParseXshellSessionError::MissingHost),
                Some(host) => {
                    let key_path = session_key_path(authentication, connection);
                    Ok(LaunchView {
                        username: session_username(authentication, connection, default_username),
                        host,
                        port: session_port(connection),
                        password: session_password(session_password_field(authentication, connection), key_path, host),
                        key_path,
                    })
                },
            }
        }
    }
}

/// The trimmed text of `v`, when it is not blank.
fn trimmed_chars(v: &Vec<char>) -> (r: Option<Vec<char>>)
    ensures
        match r {
            Some(t) => trim(v@).len() > 0 && t@ == trim(v@),
            None => trim(v@).len() == 0,
        },
{
    let (a, b) = strip_range(v, 0, v.len(), CharClass::WhiteSpace);
    assert(v@.subrange(0, v.len() as int) =~= v@);
    if a == b {
        None
    } else {
        Some(sub_chars(v, a, b))
    }
}

/// `trimmed_non_blank` on an optional text.
fn trimmed_option(v: Option<Vec<char>>) -> (r: Option<Vec<char>>)
    ensures
        match r {
            Some(t) => trimmed_non_blank(opt_chars_view(v)) == Some(t@),
            None => trimmed_non_blank(opt_chars_view(v)) is None,
        },
{
    match v {
        Some(t) => trimmed_chars(&t),
        None => None,
    }
}

pub open spec fn opt_chars_view(v: Option<Vec<char>>) -> Option<Seq<char>> {
    match v {
        Some(t) => Some(t@),
        None => None,
    }
}

/// The field under the first of `keys` in `first`, else in `second`.
fn field_in_either(first: &crate::fields::FieldMap, second: &crate::fields::FieldMap, keys: &[&str]) -> (r: Option<Vec<char>>)
    ensures
        opt_chars_view(r) == or_else(first_field_of(first@, str_views(keys@)), first_field_of(second@, str_views(keys@))),
{
    match first_field_chars(first, keys) {
        Some(v) => Some(v),
        None => first_field_chars(second, keys),
    }
}

/// Whether `host` is a loopback host (see `is_loopback`).
pub fn is_loopback_chars(host: &Vec<char>) -> (r: bool)
    ensures
        r == is_loopback(host@),
{
    let (a, b) = strip_range(host, 0, host.len(), CharClass::WhiteSpace);
    assert(host@.subrange(0, host.len() as int) =~= host@);
    let (c, d) = strip_range(host, a, b, CharClass::Bracket);
    let inner = sub_chars(host, c, d);
    let lowered = chars_to_lower(&inner);
    let ipv4 = chars_of("127.0.0.1");
    let name = chars_of("localhost");
    let ipv6 = chars_of("::1");
    chars_equal(&lowered, &ipv4) || chars_equal(&lowered, &name) || chars_equal(&lowered, &ipv6)
}

/// Whether `host` is a loopback host (see `is_loopback`).
pub fn is_loopback_host(host: &str) -> (r: bool)
    ensures
        r == is_loopback(host@),
{
    let v = chars_of(host);
    is_loopback_chars(&v)
}

/// Text of all of `v`.
fn whole_string(v: &Vec<char>) -> (s: String)
    ensures
        s@ == v@,
{
    assert(v@.subrange(0, v.len() as int) =~= v@);
    string_from_chars(v, 0, v.len())
}

/// Parses Xshell session INI text into a temporary SSH launch.
///
/// The `[CONNECTION]` section gives the host (required), port and protocol
/// (which must be SSH when present); the `[CONNECTION:AUTHENTICATION]` section
/// (or `[AUTHENTICATION]`) gives the user name, private key path and password,
/// falling back to the connection section, and the user name falling back to
/// `default_username`.
pub fn parse_xshell_session_text(text: &str, default_username: Option<&str>) -> (r: Result<
    TemporarySshLaunch,
    ParseXshellSessionError,
>)
    ensures
        match r {
            Ok(launch) => launch_from_text(text@, opt_str_view(default_username)) == Ok::<
                LaunchView,
                ParseXshellSessionError,
            >(launch@),
            Err(e) => launch_from_text(text@, opt_str_view(default_username)) == Err::<
                LaunchView,
                ParseXshellSessionError,
            >(e),
        },
        (r == Err::<TemporarySshLaunch, ParseXshellSessionError>(ParseXshellSessionError::Empty)) <==> trim(
            text@,
        ).len() == 0,
{
    let v = chars_of(text);
    let trimmed = match trimmed_chars(&v) {
        Some(t) => t,
        None => return Err(ParseXshellSessionError::Empty),
    };
    let sections = parse_ini_chars(&trimmed);
    let connection_names = ["CONNECTION", "Connection"];
    let connection = section_fields(&sections, &connection_names);
    assert(str_views(connection_names@) =~= connection_section_names());
    let authentication_names = [
        "CONNECTION:AUTHENTICATION",
        "CONNECTION:Authentication",
        "AUTHENTICATION",
        "Authentication",
    ];
    let authentication = section_fields(&sections, &authentication_names);
    assert(str_views(authentication_names@) =~= authentication_section_names());

    let protocol_names = ["Protocol", "protocol"];
    assert(str_views(protocol_names@) =~= protocol_keys());
    let protocol = field_in_either(&connection, &authentication, &protocol_names);
    if let Some(p) = protocol {
        let ssh = chars_of("ssh");
        if !chars_eq_ignore_ascii_case(&p, &ssh) {
            return Err(ParseXshellSessionError::UnsupportedProtocol);
        }
    }

    let host_names = ["Host", "host", "Hostname", "hostname"];
    assert(str_views(host_names@) =~= host_keys());
    let host = match trimmed_option(first_field_chars(&connection, &host_names)) {
        Some(h) => h,
        None => return Err(ParseXshellSessionError::MissingHost),
    };

    let port_names = ["Port", "port", "SshPort", "sshport"];
    assert(str_views(port_names@) =~= port_keys());
    let port = match first_field_chars(&connection, &port_names) {
        Some(value) => {
            let (a, b) = strip_range(&value, 0, value.len(), CharClass::WhiteSpace);
            assert(value@.subrange(0, value.len() as int) =~= value@);
            match parse_u16_range(&value, a, b) {
                Some(p) => if p > 0 {
                    p
                } else {
                    DEFAULT_SSH_PORT
                },
                None => DEFAULT_SSH_PORT,
            }
        },
        None => DEFAULT_SSH_PORT,
    };

    let user_names = ["UserName", "Username", "userName", "User", "user"];
    assert(str_views(user_names@) =~= user_keys());
    let username = match trimmed_option(field_in_either(&authentication, &connection, &user_names)) {
        Some(u) => u,
        None => {
            let fallback = match default_username {
                Some(d) => Some(chars_of(d)),
                None => None,
            };
            assert(opt_chars_view(fallback) == opt_str_view(default_username));
            match trimmed_option(fallback) {
                Some(d) => d,
                None => Vec::new(),
            }
        },
    };

    let key_names = ["PrivateKey", "privatekey", "IdentityFile", "identityfile", "KeyFile", "keyfile"];
    assert(str_views(key_names@) =~= key_path_keys());
    let key_path = trimmed_option(field_in_either(&authentication, &connection, &key_names));

    let field = match password_field(&authentication) {
        Some(f) => f,
        None => match password_field(&connection) {
            Some(f) => f,
            None => PasswordField::Omitted,
        },
    };
    let password = if field == PasswordField::Empty {
        Some(String::new())
    } else if key_path.is_none() && is_loopback_chars(&host) {
        Some(String::new())
    } else {
        None
    };

    let key_path = match key_path {
        Some(k) => Some(whole_string(&k)),
        None => None,
    };
    let launch = TemporarySshLaunch {
        username: whole_string(&username),
        host: whole_string(&host),
        port,
        password,
        key_path,
    };
    Ok(launch)
}

/// A launch never carries a secret taken from the session: its password is
/// either absent or the empty password (Xshell's encrypted values are never used).
pub proof fn law_password_is_absent_or_empty(text: Seq<char>, default_username: Option<Seq<char>>)
    ensures
        launch_from_text(text, default_username) matches Ok(launch) ==> launch.password is None
            || launch.password == Some(Seq::<char>::empty()),
{
}

/// A blank `Password=` becomes the empty password, whatever the host and key.
pub proof fn law_blank_password_is_empty_password(text: Seq<char>, default_username: Option<Seq<char>>)
    requires
        session_password_field(authentication_table(text), connection_table(text)) == PasswordField::Empty,
    ensures
        launch_from_text(text, default_username) matches Ok(launch) ==> launch.password == Some(
            Seq::<char>::empty(),
        ),
{
}

/// A session on a loopback host with no key path gets the empty password
/// (bastion one-shot sessions), whether its password is encrypted or omitted.
pub proof fn law_loopback_without_key_gets_empty_password(text: Seq<char>, default_username: Option<Seq<char>>)
    ensures
        launch_from_text(text, default_username) matches Ok(launch) ==> (launch.key_path is None && is_loopback(
            launch.host,
        ) ==> launch.password == Some(Seq::<char>::empty())),
{
}

/// An explicit key path is never overridden by a forced empty password: unless
/// the session's password is blank, such a launch has no password.
pub proof fn law_key_path_keeps_key_authentication(text: Seq<char>, default_username: Option<Seq<char>>)
    requires
        session_password_field(authentication_table(text), connection_table(text)) != PasswordField::Empty,
    ensures
        launch_from_text(text, default_username) matches Ok(launch) ==> (launch.key_path is Some
            ==> launch.password is None),
{
}

/// On a host that is not loopback, an encrypted or omitted password leaves
/// authentication to the key or the SSH agent.
pub proof fn law_remote_host_keeps_agent_authentication(text: Seq<char>, default_username: Option<Seq<char>>)
    requires
        session_password_field(authentication_table(text), connection_table(text)) != PasswordField::Empty,
    ensures
        launch_from_text(text, default_username) matches Ok(launch) ==> (!is_loopback(launch.host)
            ==> launch.password is None),
{
}

/// A session is refused only as empty, as naming another protocol, or as naming no host.
pub proof fn law_only_three_refusals(text: Seq<char>, default_username: Option<Seq<char>>)
    ensures
        launch_from_text(text, default_username) matches Err(e) ==> e == ParseXshellSessionError::Empty || e
            == ParseXshellSessionError::UnsupportedProtocol || e == ParseXshellSessionError::MissingHost,
{
}

/// The port comes from the first port field of the connection section: when
/// that field, trimmed and without one leading `+`, is a run of decimal digits
/// denoting a number from 1 to 65535, the launch has exactly that port (so
/// `Port=443` gives 443); when the section has no port field, or its value is
/// 0, blank, or no such number, the launch has the default port 22.
pub proof fn law_port_is_the_session_port_or_the_default(text: Seq<char>, default_username: Option<Seq<char>>)
    ensures
        launch_from_text(text, default_username) matches Ok(launch) ==> match first_field_of(
            connection_table(text),
            port_keys(),
        ) {
            None => launch.port == 22,
            Some(value) => {
                let t = trim(value);
                let sign: int = if t.len() > 0 && t[0] == '+' {
                    1
                } else {
                    0
                };
                if sign < t.len() && (forall|i: int| sign <= i < t.len() ==> '0' <= #[trigger] t[i] && t[i] <= '9')
                    && 1 <= decimal_value(t.skip(sign)) <= 65535 {
                    launch.port == decimal_value(t.skip(sign))
                } else {
                    launch.port == 22
                }
            },
        },
{
    if let Ok(launch) = launch_from_text(text, default_username) {
        let connection = connection_table(text);
        assert(launch.port == session_port(connection));
        if let Some(value) = first_field_of(connection, port_keys()) {
            let t = trim(value);
            let digits = crate::text::unsigned_part(t);
            let sign: int = if t.len() > 0 && t[0] == '+' {
                1
            } else {
                0
            };
            assert(digits == t.skip(sign));
            assert(crate::text::all_digits(digits) <==> (forall|i: int|
                sign <= i < t.len() ==> '0' <= #[trigger] t[i] && t[i] <= '9')) by {
                if crate::text::all_digits(digits) {
                    assert forall|i: int| sign <= i < t.len() implies '0' <= #[trigger] t[i] && t[i] <= '9' by {
                        assert(digits[i - sign] == t[i]);
                        assert(crate::text::is_digit(digits[i - sign]));
                    }
                }
                if forall|i: int| sign <= i < t.len() ==> '0' <= #[trigger] t[i] && t[i] <= '9' {
                    assert forall|i: int| 0 <= i < digits.len() implies crate::text::is_digit(#[trigger] digits[i]) by {
                        assert(digits[i] == t[i + sign]);
                    }
                }
            }
            if digits.len() > 0 && crate::text::all_digits(digits) && 1 <= decimal_value(digits) <= 65535 {
                assert(parse_u16(t) == Some(decimal_value(digits) as u16));
                assert(launch.port == decimal_value(digits));
            } else {
                assert(parse_u16(t) is None || parse_u16(t) == Some(0u16));
                assert(launch.port == 22);
            }
        } else {
            assert(launch.port == 22);
        }
    }
}

/// The port of a launch is never 0.
pub proof fn law_port_is_positive(text: Seq<char>, default_username: Option<Seq<char>>)
    ensures
        launch_from_text(text, default_username) matches Ok(launch) ==> launch.port > 0,
{
}

/// Host, user name and key path come out trimmed, and host and key path are not blank.
pub proof fn law_fields_are_trimmed(text: Seq<char>, default_username: Option<Seq<char>>)
    ensures
        launch_from_text(text, default_username) matches Ok(launch) ==> {
            &&& launch.host.len() > 0
            &&& trim(launch.host) == launch.host
            &&& trim(launch.username) == launch.username
            &&& launch.key_path matches Some(k) ==> k.len() > 0 && trim(k) == k
        },
{
    if let Ok(launch) = launch_from_text(text, default_username) {
        let connection = connection_table(text);
        let authentication = authentication_table(text);
        let host = first_field_of(connection, host_keys()).unwrap();
        lemma_strip_idempotent(host, CharClass::WhiteSpace);
        let user = or_else(first_field_of(authentication, user_keys()), first_field_of(connection, user_keys()));
        if let Some(u) = user {
            lemma_strip_idempotent(u, CharClass::WhiteSpace);
        }
        if let Some(d) = default_username {
            lemma_strip_idempotent(d, CharClass::WhiteSpace);
        }
        lemma_strip_unchanged(Seq::<char>::empty(), CharClass::WhiteSpace);
        let key = or_else(first_field_of(authentication, key_path_keys()), first_field_of(connection, key_path_keys()));
        if let Some(k) = key {
            lemma_strip_idempotent(k, CharClass::WhiteSpace);
        }
    }
}

/// A session that names a protocol other than SSH (in any ASCII case) is refused.
pub proof fn law_other_protocols_are_refused(text: Seq<char>, default_username: Option<Seq<char>>)
    requires
        trim(text).len() > 0,
        session_protocol(text) matches Some(p) && !eq_ignore_ascii_case(p, "ssh"@),
    ensures
        launch_from_text(text, default_username) == Err::<LaunchView, ParseXshellSessionError>(
            ParseXshellSessionError::UnsupportedProtocol,
        ),
{
}

/// The default user name is only a fallback: when the session names a
/// non-blank user, the default makes no difference.
pub proof fn law_default_username_is_only_a_fallback(
    text: Seq<char>,
    first_default: Option<Seq<char>>,
    second_default: Option<Seq<char>>,
)
    requires
        trimmed_non_blank(
            or_else(
                first_field_of(authentication_table(text), user_keys()),
                first_field_of(connection_table(text), user_keys()),
            ),
        ) is Some,
    ensures
        launch_from_text(text, first_default) == launch_from_text(text, second_default),
{
}

/// The launch that the content of a `.xsh` file opens (see `parse_xshell_session_text`).
pub fn parse_xshell_session_content(content: &str, default_username: Option<&str>) -> (r: Result<
    NativeConnectionLaunch,
    ParseXshellSessionError,
>)
    ensures
        match r {
            Ok(NativeConnectionLaunch::Ssh(launch)) => launch_from_text(content@, opt_str_view(default_username))
                == Ok::<LaunchView, ParseXshellSessionError>(launch@),
            Err(e) => launch_from_text(content@, opt_str_view(default_username)) == Err::<
                LaunchView,
                ParseXshellSessionError,
            >(e),
        },
{
    match parse_xshell_session_text(content, default_username) {
        Ok(launch) => Ok(NativeConnectionLaunch::Ssh(launch)),
        Err(e) => Err(e),
    }
}

} // verus!
