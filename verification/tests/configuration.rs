use csecmd::config::{
    config_path_in, default_config_contents, format_server_addr, resolve_config, u16_to_string,
    Auth,
};
use csecmd::runner::fresh_workspace_path;

#[test]
fn port_digits() {
    assert_eq!(u16_to_string(0), "0");
    assert_eq!(u16_to_string(7), "7");
    assert_eq!(u16_to_string(22), "22");
    assert_eq!(u16_to_string(8080), "8080");
    assert_eq!(u16_to_string(65535), "65535");
}

#[test]
fn server_addr_format() {
    assert_eq!(format_server_addr("login.example.org", 22), "login.example.org:22");
    assert_eq!(format_server_addr("10.0.0.1", 2222), "10.0.0.1:2222");
}

#[test]
fn resolve_config_assembles_fields() {
    let c = resolve_config(
        "login.example.org",
        22,
        "zid".to_string(),
        "hunter2".to_string(),
        "make test".to_string(),
    );
    assert_eq!(c.server_addr, "login.example.org:22");
    assert_eq!(c.username, "zid");
    assert_eq!(c.command, "make test");
    let Auth::Password(p) = c.auth;
    assert_eq!(p, "hunter2");
}

#[test]
fn default_config_scaffold_is_usable() {
    let s = default_config_contents();
    assert!(!s.is_empty());
    assert!(s.contains("[server]"));
    assert!(s.contains("[auth]"));
}

#[test]
fn config_path_under_home() {
    assert_eq!(config_path_in("/home/zid"), "/home/zid/.config/csecmd/config.toml");
}

#[test]
fn fresh_workspace_path_shape() {
    // The timestamped workspace always sits under the fixed prefix, and
    // the stamp is a usable path component: non-empty, no separator.
    let p = fresh_workspace_path();
    assert_eq!(p.parts.len(), 3);
    assert_eq!(p.parts[0], ".csecmd_dump");
    assert_eq!(p.parts[1], "temp");
    assert!(!p.parts[2].is_empty());
    assert!(!p.parts[2].contains('/'));
    assert!(p.parts[2].chars().all(|c| c.is_ascii_digit() || c == '-' || c == '+'));
}
