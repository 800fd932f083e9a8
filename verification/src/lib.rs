//! Opening Xshell session files (`.xsh`) and session archives (`.xts`) as
//! temporary SSH launches.
//!
//! The library reads no files: callers hand it the text of a session, or the
//! entries of an archive one by one, and it decides what to launch.
pub mod archive;
pub mod fields;
pub mod ini;
pub mod path;
pub mod session;
pub mod text;
pub mod uri;

pub use archive::{next_archive_action, ArchiveAction, ArchiveEvent};
pub use ini::{
    first_field, normalize_key, parse_ini_sections, password_field, section_fields, unquote, IniSections,
    PasswordField,
};
pub use fields::FieldMap;
pub use path::{is_xshell_session_path, session_file_kind, SessionFileKind};
pub use session::{
    is_loopback_host, parse_xshell_session_content, parse_xshell_session_text, NativeConnectionLaunch,
    ParseXshellSessionError, TemporarySshLaunch, DEFAULT_SSH_PORT,
};
pub use uri::{opening_notice, ConnectionUriArgs};
