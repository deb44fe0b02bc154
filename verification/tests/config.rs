use sshm::edit::{remove_in, update_in};
use sshm::host::HostEntry;
use sshm::parse::parse;

fn entry(alias: &str) -> HostEntry {
    HostEntry { alias: alias.to_string(), ..Default::default() }
}

#[test]
fn parse_key_equals_value() {
    let hosts = parse("Host a\n    HostName = example.com\n    Port=2222\n");
    assert_eq!(hosts[0].hostname.as_deref(), Some("example.com"));
    assert_eq!(hosts[0].port, Some(2222));
}

#[test]
fn parse_does_not_apply_match_options_to_previous_host() {
    let hosts = parse("Host web\n    HostName web.example.com\nMatch host *.internal\n    User root\n");
    assert_eq!(hosts.len(), 1);
    assert_eq!(hosts[0].user, None);
}

#[test]
fn update_preserves_unmodeled_options() {
    let input = "Host prod\n    HostName x\n    ProxyJump bastion\n";
    let e = HostEntry {
        alias: "prod".into(),
        hostname: Some("x".into()),
        user: Some("deploy".into()),
        ..Default::default()
    };
    let out = update_in(input, "prod", &e).unwrap();
    assert!(out.contains("ProxyJump bastion"));
    assert!(out.contains("User deploy"));
    assert!(out.contains("HostName x"));
}

#[test]
fn update_clears_removed_option() {
    let input = "Host a\n    HostName x\n    User root\n";
    let e = HostEntry { alias: "a".into(), hostname: Some("x".into()), ..Default::default() };
    let out = update_in(input, "a", &e).unwrap();
    assert!(!out.contains("User root"));
}

#[test]
fn update_keeps_explicit_port_22() {
    let input = "Host legacy\n    HostName x\n    Port 22\n\nHost *\n    Port 2222\n";
    let e = HostEntry {
        alias: "legacy".into(),
        hostname: Some("x".into()),
        port: Some(22),
        ..Default::default()
    };
    let out = update_in(input, "legacy", &e).unwrap();
    assert!(out.contains("Port 22\n"));
    assert!(out.contains("Host *\n    Port 2222"));
}

#[test]
fn update_stops_at_match_block() {
    let input = "Host a\n    HostName x\nMatch host y\n    ProxyJump z\n";
    let e = HostEntry { alias: "a".into(), hostname: Some("x2".into()), ..Default::default() };
    let out = update_in(input, "a", &e).unwrap();
    assert!(out.contains("Match host y\n    ProxyJump z"));
    assert!(out.contains("HostName x2"));
}

#[test]
fn update_stops_at_tab_separated_host() {
    let input = "Host a\n    HostName x\nHost\tb\n    HostName y\n";
    let e = HostEntry { alias: "a".into(), hostname: Some("x2".into()), ..Default::default() };
    let out = update_in(input, "a", &e).unwrap();
    assert!(out.contains("Host\tb\n    HostName y"));
}

#[test]
fn update_preserves_comments_and_blanks_before_next_host() {
    let input = "Host foo\n    HostName x\n\n# production DB — do not remove\nHost db\n    HostName d\n";
    let e = HostEntry { alias: "foo".into(), hostname: Some("x2".into()), ..Default::default() };
    let out = update_in(input, "foo", &e).unwrap();
    assert!(out.contains("# production DB — do not remove\nHost db"));
}

#[test]
fn update_preserves_interior_comments() {
    let input = "Host a\n    HostName x\n    # keep me\n    ProxyJump j\n";
    let e = HostEntry { alias: "a".into(), hostname: Some("x".into()), ..Default::default() };
    let out = update_in(input, "a", &e).unwrap();
    assert!(out.contains("    # keep me\n    ProxyJump j"));
}

#[test]
fn update_missing_host_errors() {
    assert!(update_in("Host a\n    HostName x\n", "b", &entry("b")).is_err());
}

#[test]
fn update_multi_alias_host_errors() {
    assert!(update_in("Host a b\n    HostName x\n", "a", &entry("a")).is_err());
}

#[test]
fn remove_stops_at_match_and_tab_host() {
    let input = "Host a\n    HostName x\nMatch host y\n    ProxyJump z\nHost\tb\n    HostName yb\n";
    let out = remove_in(input, "a").unwrap();
    assert!(!out.contains("HostName x"));
    assert!(out.contains("Match host y\n    ProxyJump z"));
    assert!(out.contains("Host\tb\n    HostName yb"));
}

#[test]
fn remove_preserves_comment_before_next_host() {
    let input = "Host foo\n    HostName x\n\n# note about db\nHost db\n    HostName d\n";
    let out = remove_in(input, "foo").unwrap();
    assert_eq!(out, "# note about db\nHost db\n    HostName d\n");
}

#[test]
fn remove_last_block_leaves_rest() {
    let input = "Host a\n    HostName x\n\nHost b\n    HostName y\n";
    let out = remove_in(input, "b").unwrap();
    assert_eq!(out, "Host a\n    HostName x\n");
}
