use xshell_session::{
    is_xshell_session_path, parse_xshell_session_text, session_file_kind, NativeConnectionLaunch,
    ParseXshellSessionError,
};

const NETCATTY_SAMPLE: &str = "[CONNECTION]\n\
Port=59759\n\
Protocol=SSH\n\
Host=127.0.0.1\n\
\n\
[CONNECTION:AUTHENTICATION]\n\
UserName=root\n\
Password=PCZencryptedNotUsable\n";

#[test]
fn is_xshell_session_path_matches_extensions() {
    assert!(is_xshell_session_path(
        r"C:\Users\a\Sessions\root(SSH)@1.2.3.4.xsh"
    ));
    assert!(is_xshell_session_path("session.XSH"));
    assert!(is_xshell_session_path("bundle.xts"));
    assert!(!is_xshell_session_path("readme.txt"));
}

#[test]
fn parse_maps_host_port_username_and_loopback_encrypted_becomes_empty_password() {
    let launch = parse_xshell_session_text(NETCATTY_SAMPLE, None).unwrap();
    assert_eq!(launch.host, "127.0.0.1");
    assert_eq!(launch.port, 59759);
    assert_eq!(launch.username, "root");
    // Bastion loopback: encrypted Password is unusable, so the password is empty.
    assert_eq!(
        launch.password.as_ref().map(|value| value.as_str()),
        Some("")
    );
    assert!(launch.key_path.is_none());
}

#[test]
fn omitted_password_on_loopback_becomes_empty_password() {
    let launch = parse_xshell_session_text(
        "[CONNECTION]\nHost=127.0.0.1\nPort=49839\nProtocol=SSH\n\n             [CONNECTION:AUTHENTICATION]\nUserName=root\n",
        None,
    )
    .unwrap();
    assert_eq!(launch.host, "127.0.0.1");
    assert_eq!(launch.port, 49839);
    assert_eq!(launch.username, "root");
    assert_eq!(
        launch.password.as_ref().map(|value| value.as_str()),
        Some("")
    );
    assert!(launch.key_path.is_none());
}

#[test]
fn encrypted_password_on_non_loopback_stays_none() {
    let launch = parse_xshell_session_text(
        "[CONNECTION]\nHost=10.0.0.8\nPort=22\nProtocol=SSH\n\n             [CONNECTION:AUTHENTICATION]\nUserName=root\nPassword=PCZencryptedNotUsable\n",
        None,
    )
    .unwrap();
    assert_eq!(launch.host, "10.0.0.8");
    assert!(launch.password.is_none());
    assert!(launch.key_path.is_none());
}

#[test]
fn loopback_with_explicit_key_does_not_force_empty_password() {
    let launch = parse_xshell_session_text(
        "[CONNECTION]\nHost=127.0.0.1\nPort=2222\nProtocol=SSH\n\n             [AUTHENTICATION]\nUserName=root\nPrivateKey=/tmp/id_rsa\nPassword=PCZencrypted\n",
        None,
    )
    .unwrap();
    assert_eq!(launch.key_path.as_deref(), Some("/tmp/id_rsa"));
    assert!(launch.password.is_none());
}

#[test]
fn empty_password_becomes_ephemeral_empty_secret() {
    let launch = parse_xshell_session_text(
        "[CONNECTION]\nHost=127.0.0.1\nPort=2222\nProtocol=SSH\n\n\
         [CONNECTION:AUTHENTICATION]\nUserName=ops\nPassword=\n",
        None,
    )
    .unwrap();
    assert_eq!(launch.username, "ops");
    assert_eq!(launch.host, "127.0.0.1");
    assert_eq!(launch.port, 2222);
    assert_eq!(
        launch.password.as_ref().map(|value| value.as_str()),
        Some("")
    );
    assert!(launch.key_path.is_none());
}

#[test]
fn omitted_password_leaves_agent_auth() {
    let launch = parse_xshell_session_text(
        "[CONNECTION]\nHost=10.0.0.8\nPort=22\nUserName=ubuntu\n",
        Some("fallback"),
    )
    .unwrap();
    assert_eq!(launch.username, "ubuntu");
    assert!(launch.password.is_none());
}

#[test]
fn private_key_path_is_preserved_for_launch() {
    let launch = parse_xshell_session_text(
        "[CONNECTION]\nHost=10.0.0.8\nPort=22\nUserName=ubuntu\n\n\
         [AUTHENTICATION]\nPrivateKey=/Users/ubuntu/.ssh/id_rsa\nPassword=redacted\n",
        None,
    )
    .unwrap();
    assert_eq!(
        launch.key_path.as_deref(),
        Some("/Users/ubuntu/.ssh/id_rsa")
    );
    assert!(launch.password.is_none());
}

#[test]
fn rejects_non_ssh_protocols() {
    assert_eq!(
        parse_xshell_session_text(
            "[CONNECTION]\nProtocol=TELNET\nHost=127.0.0.1\nPort=23\n",
            None
        )
        .unwrap_err(),
        ParseXshellSessionError::UnsupportedProtocol
    );
}

#[test]
fn path_helper_rejects_non_session_files() {
    // The path check of `parse_xshell_session_path`, which happens before any read.
    assert_eq!(
        session_file_kind("notes.txt").unwrap_err(),
        ParseXshellSessionError::InvalidPath
    );
}

#[test]
fn parse_to_native_launch_uses_ssh_kind() {
    let launch = parse_xshell_session_text(NETCATTY_SAMPLE, None).unwrap();
    let native = NativeConnectionLaunch::Ssh(launch);
    assert!(matches!(native, NativeConnectionLaunch::Ssh(_)));
}
