use xshell_session::{
    first_field, is_loopback_host, is_xshell_session_path, next_archive_action, normalize_key, opening_notice,
    parse_ini_sections, parse_xshell_session_content, parse_xshell_session_text, password_field,
    section_fields, session_file_kind, unquote, ArchiveAction, ArchiveEvent, ConnectionUriArgs,
    NativeConnectionLaunch, ParseXshellSessionError, PasswordField, SessionFileKind, DEFAULT_SSH_PORT,
};

fn launch(text: &str) -> xshell_session::TemporarySshLaunch {
    parse_xshell_session_text(text, None).unwrap()
}

fn error(text: &str) -> ParseXshellSessionError {
    parse_xshell_session_text(text, None).unwrap_err()
}

#[test]
fn blank_text_is_empty() {
    assert_eq!(error(""), ParseXshellSessionError::Empty);
    assert_eq!(error(" \n\t\r\n "), ParseXshellSessionError::Empty);
    assert_eq!(error("\u{a0}\u{3000}"), ParseXshellSessionError::Empty);
}

#[test]
fn missing_or_blank_host_is_rejected() {
    assert_eq!(error("[CONNECTION]\nPort=22\n"), ParseXshellSessionError::MissingHost);
    assert_eq!(error("[CONNECTION]\nHost=   \n"), ParseXshellSessionError::MissingHost);
    assert_eq!(error("; only a comment"), ParseXshellSessionError::MissingHost);
    assert_eq!(error("[AUTHENTICATION]\nHost=10.0.0.1\n"), ParseXshellSessionError::MissingHost);
}

#[test]
fn protocol_is_compared_ignoring_ascii_case() {
    assert_eq!(launch("[CONNECTION]\nHost=h\nProtocol=ssh\n").host, "h");
    assert_eq!(launch("[CONNECTION]\nHost=h\nprotocol=Ssh\n").host, "h");
    assert_eq!(
        error("[CONNECTION]\nHost=h\n[AUTHENTICATION]\nProtocol=RDP\n"),
        ParseXshellSessionError::UnsupportedProtocol
    );
    // The protocol value is not trimmed.
    assert_eq!(error("[CONNECTION]\nHost=h\nProtocol=\"SSH \"\n"), ParseXshellSessionError::UnsupportedProtocol);
    // The protocol is checked before the host.
    assert_eq!(error("[CONNECTION]\nProtocol=SFTP\n"), ParseXshellSessionError::UnsupportedProtocol);
}

#[test]
fn port_parsing_follows_u16_rules() {
    assert_eq!(launch("[CONNECTION]\nHost=h\nPort=+2222\n").port, 2222);
    assert_eq!(launch("[CONNECTION]\nHost=h\nPort= 2200 \n").port, 2200);
    assert_eq!(launch("[CONNECTION]\nHost=h\nPort=65535\n").port, 65535);
    assert_eq!(launch("[CONNECTION]\nHost=h\nPort=65536\n").port, DEFAULT_SSH_PORT);
    assert_eq!(launch("[CONNECTION]\nHost=h\nPort=0\n").port, 22);
    assert_eq!(launch("[CONNECTION]\nHost=h\nPort=-1\n").port, 22);
    assert_eq!(launch("[CONNECTION]\nHost=h\nPort=+\n").port, 22);
    assert_eq!(launch("[CONNECTION]\nHost=h\nPort=22a\n").port, 22);
    assert_eq!(launch("[CONNECTION]\nHost=h\nSshPort=0022\n").port, 22);
    assert_eq!(launch("[CONNECTION]\nHost=h\nsshport=2022\n").port, 2022);
    assert_eq!(launch("[CONNECTION]\nHost=h\n").port, 22);
    assert_eq!(DEFAULT_SSH_PORT, 22);
}

#[test]
fn username_falls_back_to_connection_then_default() {
    let text = "[CONNECTION]\nHost=h\nUser=conn\n";
    assert_eq!(parse_xshell_session_text(text, Some("dflt")).unwrap().username, "conn");
    let text = "[CONNECTION]\nHost=h\nUser=conn\n[AUTHENTICATION]\nUserName= auth \n";
    assert_eq!(parse_xshell_session_text(text, Some("dflt")).unwrap().username, "auth");
    let text = "[CONNECTION]\nHost=h\nUser=conn\n[AUTHENTICATION]\nUserName=   \n";
    assert_eq!(parse_xshell_session_text(text, Some(" dflt ")).unwrap().username, "dflt");
    let text = "[CONNECTION]\nHost=h\n";
    assert_eq!(parse_xshell_session_text(text, Some("  ")).unwrap().username, "");
    assert_eq!(parse_xshell_session_text(text, None).unwrap().username, "");
}

#[test]
fn key_path_comes_from_either_section() {
    let l = launch("[CONNECTION]\nHost=10.1.1.1\nIdentityFile= /k/id \n");
    assert_eq!(l.key_path.as_deref(), Some("/k/id"));
    assert!(l.password.is_none());
    let l = launch("[CONNECTION]\nHost=localhost\nkeyfile=  \n");
    assert!(l.key_path.is_none());
    assert_eq!(l.password.as_deref(), Some(""));
}

#[test]
fn loopback_hosts_get_an_empty_password() {
    for host in ["localhost", "LOCALHOST", "[::1]", " ::1 ", "127.0.0.1"] {
        let text = format!("[CONNECTION]\nHost={}\n", host);
        let l = parse_xshell_session_text(&text, None).unwrap();
        assert_eq!(l.password.as_deref(), Some(""), "host {host}");
    }
    let l = launch("[CONNECTION]\nHost=127.0.0.2\n");
    assert!(l.password.is_none());
}

#[test]
fn password_keys_are_matched_after_normalizing() {
    let l = launch("[CONNECTION]\nHost=remote\n[AUTHENTICATION]\nPass-Word=  \n");
    assert_eq!(l.password.as_deref(), Some(""));
    let l = launch("[CONNECTION]\nHost=remote\nPassword2=\n");
    assert_eq!(l.password.as_deref(), Some(""));
    // The first password key in key order decides: "Password" < "password_old".
    let l = launch("[CONNECTION]\nHost=remote\npassword_old=\nPassword=secret\n");
    assert!(l.password.is_none());
    // The authentication section's password field wins over the connection section's.
    let l = launch("[CONNECTION]\nHost=remote\nPassword=\n[AUTHENTICATION]\nPassword=x\n");
    assert!(l.password.is_none());
}

#[test]
fn sections_match_exactly_first_then_ignoring_case() {
    assert_eq!(launch("[connection]\nHost=lower\n").host, "lower");
    assert_eq!(launch("[Connection]\nHost=a\n[CONNECTION]\nHost=b\n").host, "b");
    // No exact match: the first name in byte order wins ("cOnnection" < "connection").
    assert_eq!(launch("[connection]\nHost=second\n[cOnnection]\nHost=first\n").host, "first");
    assert_eq!(launch("[ CONNECTION ]\nHost=spaced\n").host, "spaced");
}

#[test]
fn ini_lines_are_read_like_the_original() {
    let text = "a=1\n; comment\n# other\nnot a field\n=orphan\n[S]\nb = \"two\" \nb=3\n[S]\nc='4'\n[T]\r\n";
    let sections = parse_ini_sections(text);
    let unnamed = sections.get("").unwrap();
    assert_eq!(unnamed.get("a").as_deref(), Some("1"));
    assert!(unnamed.get("").is_none());
    let s = sections.get("S").unwrap();
    assert_eq!(s.get("b").as_deref(), Some("3"));
    assert_eq!(s.get("c").as_deref(), Some("4"));
    assert!(sections.get("T").unwrap().get("b").is_none());
    assert!(sections.get("U").is_none());
    assert!(parse_ini_sections("").get("").is_some());
}

#[test]
fn ignorable_lines_change_nothing() {
    let plain = parse_ini_sections("a=0\n[S]\nk=v\n[T]\nx=1");
    let padded = parse_ini_sections(";c\na=0\n\n[S]\n  # note\nk=v\n=orphan\n[T]\nno key here\nx=1\n  \r");
    for (section, key, expected) in [("", "a", Some("0")), ("S", "k", Some("v")), ("T", "x", Some("1")), ("T", "", None)] {
        assert_eq!(plain.get(section).unwrap().get(key).as_deref(), expected);
        assert_eq!(padded.get(section).unwrap().get(key).as_deref(), expected);
    }
    assert!(plain.get("U").is_none() && padded.get("U").is_none());
    assert!(padded.get("").unwrap().get("no key here").is_none());
}

#[test]
fn crlf_and_quotes_are_handled() {
    let l = launch("[CONNECTION]\r\nHost=\"example.com\"\r\nPort='2201'\r\n");
    assert_eq!(l.host, "example.com");
    assert_eq!(l.port, 2201);
    assert_eq!(launch("[CONNECTION]\nHost=\"x'\n").host, "\"x'");
    assert_eq!(launch("[CONNECTION]\nHost = a=b \n").host, "a=b");
}

#[test]
fn unquote_removes_one_matching_pair() {
    assert_eq!(unquote("  \"abc\" "), "abc");
    assert_eq!(unquote("'a b'"), "a b");
    assert_eq!(unquote("\"\""), "");
    assert_eq!(unquote("\""), "\"");
    assert_eq!(unquote("\"a'"), "\"a'");
    assert_eq!(unquote("\"\"x\"\""), "\"x\"");
}

#[test]
fn normalize_key_keeps_ascii_alphanumerics_lowercased() {
    assert_eq!(normalize_key("User-Name_1"), "username1");
    assert_eq!(normalize_key("PASSWORD"), "password");
    assert_eq!(normalize_key("é x"), "x");
}

#[test]
fn lookups_on_parsed_sections() {
    let sections = parse_ini_sections("[auth]\nUSER=u1\nuser=u2\nPassWord=  \n[Other]\nHost=h\n");
    let fields = section_fields(&sections, &["Missing", "AUTH"]);
    assert_eq!(first_field(&fields, &["User"]).as_deref(), Some("u1"));
    assert_eq!(first_field(&fields, &["user"]).as_deref(), Some("u2"));
    assert_eq!(first_field(&fields, &["nothing", "USER"]).as_deref(), Some("u1"));
    assert_eq!(first_field(&fields, &["nothing"]), None);
    assert_eq!(password_field(&fields), Some(PasswordField::Empty));
    let other = section_fields(&sections, &["other"]);
    assert_eq!(password_field(&other), None);
    let none = section_fields(&sections, &["absent"]);
    assert_eq!(first_field(&none, &["Host"]), None);
    let encrypted = section_fields(&parse_ini_sections("[a]\npassword=xyz"), &["a"]);
    assert_eq!(password_field(&encrypted), Some(PasswordField::Encrypted));
}

#[test]
fn loopback_host_detection() {
    assert!(is_loopback_host("127.0.0.1"));
    assert!(is_loopback_host(" [LocalHost] "));
    assert!(is_loopback_host("[[::1]]"));
    assert!(!is_loopback_host("::2"));
    assert!(!is_loopback_host("local host"));
    assert!(!is_loopback_host(""));
}

#[test]
fn session_file_kinds() {
    assert_eq!(session_file_kind("bundle.XTS"), Ok(SessionFileKind::Archive));
    assert_eq!(session_file_kind("dir/a.b.xsh"), Ok(SessionFileKind::Session));
    assert_eq!(session_file_kind("noextension"), Err(ParseXshellSessionError::InvalidPath));
    assert_eq!(session_file_kind(".xsh"), Err(ParseXshellSessionError::InvalidPath));
    assert_eq!(session_file_kind("a.xshx"), Err(ParseXshellSessionError::InvalidPath));
    assert!(!is_xshell_session_path("xsh"));
    assert!(!is_xshell_session_path("dir.xsh/notes"));
    assert!(!is_xshell_session_path("dir/.xsh"));
    assert!(!is_xshell_session_path("a.xsh.bak"));
    assert_eq!(session_file_kind("C:\\d\\bundle.XTS"), Ok(SessionFileKind::Archive));
    assert_eq!(session_file_kind("/home/u/prod.xsh"), Ok(SessionFileKind::Session));
    assert!(is_xshell_session_path("a.XtS"));
    assert_eq!(session_file_kind("dir/prod.xsh/"), Ok(SessionFileKind::Session));
    assert_eq!(session_file_kind("bundle.xts//"), Ok(SessionFileKind::Archive));
    assert_eq!(session_file_kind("dir/prod.xsh/."), Ok(SessionFileKind::Session));
    assert!(!is_xshell_session_path("prod.xsh/.."));
    assert!(!is_xshell_session_path(".."));
    assert!(!is_xshell_session_path("./"));
}

#[test]
fn archive_events_decide_the_next_step() {
    let finish_err = |event: ArchiveEvent| match next_archive_action(&event, None) {
        ArchiveAction::Finish(Err(e)) => e,
        _ => panic!("expected an error"),
    };
    assert_eq!(finish_err(ArchiveEvent::OpenFailed), ParseXshellSessionError::Read);
    assert_eq!(finish_err(ArchiveEvent::NotAnArchive), ParseXshellSessionError::Parse);
    assert_eq!(finish_err(ArchiveEvent::EntryFailed), ParseXshellSessionError::Parse);
    assert_eq!(finish_err(ArchiveEvent::ContentFailed), ParseXshellSessionError::Read);
    assert_eq!(finish_err(ArchiveEvent::Exhausted), ParseXshellSessionError::EmptyArchive);
    assert_eq!(finish_err(ArchiveEvent::Content("  ".to_string())), ParseXshellSessionError::Empty);

    let step = |is_dir: bool, name: &str| next_archive_action(&ArchiveEvent::Entry { is_dir, name: name.to_string() }, None);
    assert!(matches!(step(false, "ignored.txt"), ArchiveAction::NextEntry));
    assert!(matches!(step(true, "folder.xsh"), ArchiveAction::NextEntry));
    assert!(matches!(step(false, "prod/bastion.xsh"), ArchiveAction::ReadContent));
    assert!(matches!(step(false, "PROD\\BASTION.XSH"), ArchiveAction::ReadContent));

    let content = |text: &str| next_archive_action(&ArchiveEvent::Content(text.to_string()), Some("me"));
    assert!(matches!(content("[CONNECTION]\nProtocol=TELNET\nHost=h\n"), ArchiveAction::NextEntry));
    assert!(matches!(content("[CONNECTION]\nPort=22\n"), ArchiveAction::NextEntry));
    match content("[CONNECTION]\nHost=h\n") {
        ArchiveAction::Finish(Ok(NativeConnectionLaunch::Ssh(l))) => {
            assert_eq!(l.host, "h");
            assert_eq!(l.username, "me");
        }
        _ => panic!("expected a launch"),
    }
}

#[test]
fn archive_scan_opens_first_ssh_session() {
    let entries: Vec<(bool, &str, &str)> = vec![
        (false, "ignored.txt", "nope"),
        (false, "telnet.xsh", "[CONNECTION]\nProtocol=TELNET\nHost=h\n"),
        (
            false,
            "prod/bastion.xsh",
            "[CONNECTION]\nHost=127.0.0.1\nPort=2222\nProtocol=SSH\n\n[CONNECTION:AUTHENTICATION]\nUserName=root\nPassword=\n",
        ),
        (false, "later.xsh", "[CONNECTION]\nHost=later\n"),
    ];
    let mut outcome = None;
    for (is_dir, name, text) in entries {
        match next_archive_action(&ArchiveEvent::Entry { is_dir, name: name.to_string() }, None) {
            ArchiveAction::NextEntry => continue,
            ArchiveAction::Finish(r) => {
                outcome = Some(r);
                break;
            }
            ArchiveAction::ReadContent => {}
        }
        match next_archive_action(&ArchiveEvent::Content(text.to_string()), None) {
            ArchiveAction::Finish(r) => {
                outcome = Some(r);
                break;
            }
            _ => continue,
        }
    }
    match outcome.unwrap().unwrap() {
        NativeConnectionLaunch::Ssh(ssh) => {
            assert_eq!(ssh.host, "127.0.0.1");
            assert_eq!(ssh.port, 2222);
            assert_eq!(ssh.username, "root");
            assert_eq!(ssh.password.as_deref(), Some(""));
        }
    }
}

#[test]
fn session_content_opens_as_ssh_launch() {
    match parse_xshell_session_content("[CONNECTION]\nHost=box\n", Some("me")).unwrap() {
        NativeConnectionLaunch::Ssh(l) => {
            assert_eq!(l.host, "box");
            assert_eq!(l.username, "me");
            assert_eq!(l.port, 22);
        }
    }
    assert_eq!(parse_xshell_session_content("", None), Err(ParseXshellSessionError::Empty));
}

#[test]
fn uri_target_and_notice() {
    let args = ConnectionUriArgs { uri: "  \"C:\\s\\root.xsh\"  ".to_string() };
    assert_eq!(args.target(), "C:\\s\\root.xsh");
    let args = ConnectionUriArgs { uri: "'ssh://a b'".to_string() };
    assert_eq!(args.target(), "ssh://a b");
    let args = ConnectionUriArgs { uri: "\" spaced \"".to_string() };
    assert_eq!(args.target(), " spaced ");
    assert_eq!(opening_notice(true), "Opening Xshell session in OxideTerm");
    assert_eq!(opening_notice(false), "Opening temporary connection in OxideTerm");
}

#[test]
fn error_messages() {
    assert_eq!(ParseXshellSessionError::Empty.message(), "Xshell session content is empty");
    assert_eq!(ParseXshellSessionError::InvalidPath.message(), "path is not an Xshell .xsh or .xts session");
    assert_eq!(ParseXshellSessionError::Read.message(), "failed to read Xshell session file");
    assert_eq!(ParseXshellSessionError::Parse.message(), "failed to parse Xshell session file");
    assert_eq!(ParseXshellSessionError::UnsupportedProtocol.message(), "Xshell session protocol is not SSH");
    assert_eq!(ParseXshellSessionError::MissingHost.message(), "Xshell session is missing a host");
    assert_eq!(ParseXshellSessionError::EmptyArchive.message(), "Xshell archive contains no SSH session files");
}

#[test]
fn law_examples_on_concrete_sessions() {
    // The password is only ever absent or empty.
    let l = launch("[CONNECTION]\nHost=remote\nPassword=cipher\n");
    assert!(l.password.is_none());
    // The default user name is only a fallback.
    let text = "[CONNECTION]\nHost=h\nUserName=owner\n";
    assert_eq!(
        parse_xshell_session_text(text, Some("a")).unwrap(),
        parse_xshell_session_text(text, Some("b")).unwrap()
    );
    // Host and user name come out trimmed.
    let l = launch("[CONNECTION]\nHost=\"  spaced.example  \"\nUser=\" bob \"\n");
    assert_eq!(l.host, "spaced.example");
    assert_eq!(l.username, "bob");
}
