use sshm::edit::{find_block, indent_of, remove_in, trim_block, update_in};
use sshm::entry::{add_entry, entry_from_answers, find_host, update_entry};
use sshm::error::ConfigError;
use sshm::host::HostEntry;
use sshm::number::parse_port;
use sshm::parse::{parse, split_keyword};
use sshm::render::{append_block, render_block};
use sshm::text::{split_lines, to_chars};

fn chars(s: &str) -> Vec<char> {
    s.chars().collect()
}

fn text(v: &[char]) -> String {
    v.iter().collect()
}

fn lines_of(s: &str) -> Vec<Vec<char>> {
    split_lines(&to_chars(s))
}

fn full_entry() -> HostEntry {
    HostEntry {
        alias: "web".into(),
        hostname: Some("web.example.com".into()),
        user: Some("deploy".into()),
        port: Some(2222),
        identity_file: Some("~/.ssh/id_ed25519".into()),
    }
}

fn same(a: &HostEntry, b: &HostEntry) -> bool {
    a.alias == b.alias
        && a.hostname == b.hostname
        && a.user == b.user
        && a.port == b.port
        && a.identity_file == b.identity_file
}

#[test]
fn parse_skips_wildcard_and_negated_aliases() {
    let hosts = parse("Host web * db? !bad prod\n  User u\n");
    let aliases: Vec<&str> = hosts.iter().map(|h| h.alias.as_str()).collect();
    assert_eq!(aliases, vec!["web", "prod"]);
    assert!(hosts.iter().all(|h| h.user.as_deref() == Some("u")));
}

#[test]
fn parse_keywords_ignore_case() {
    let hosts = parse("HOST A\n  hostname h1\nhost b\n  USER u\n");
    assert_eq!(hosts.len(), 2);
    assert_eq!(hosts[0].alias, "A");
    assert_eq!(hosts[0].hostname.as_deref(), Some("h1"));
    assert_eq!(hosts[1].user.as_deref(), Some("u"));
}

#[test]
fn parse_strips_quotes_and_trailing_space() {
    let hosts = parse("Host q\n  HostName \"example.com\"  \n  IdentityFile \"~/my key\"\n");
    assert_eq!(hosts[0].hostname.as_deref(), Some("example.com"));
    assert_eq!(hosts[0].identity_file.as_deref(), Some("~/my key"));
}

#[test]
fn parse_ignores_invalid_ports() {
    let hosts = parse("Host a\n  Port 70000\n  Port abc\nHost b\n  Port +22\n");
    assert_eq!(hosts[0].port, None);
    assert_eq!(hosts[1].port, Some(22));
}

#[test]
fn parse_handles_crlf_comments_and_blank_lines() {
    let hosts = parse("# top\r\n\r\nHost a\r\n  # User x\r\n  User u\r\n");
    assert_eq!(hosts.len(), 1);
    assert_eq!(hosts[0].user.as_deref(), Some("u"));
}

#[test]
fn parse_later_option_wins_and_match_ends_block() {
    let hosts = parse("Host a\n  User x\n  User y\nMatch all\n  User z\nHost c\n  User w\n");
    assert_eq!(hosts.len(), 2);
    assert_eq!(hosts[0].user.as_deref(), Some("y"));
    assert_eq!(hosts[1].user.as_deref(), Some("w"));
}

#[test]
fn parse_empty_text() {
    assert!(parse("").is_empty());
    assert!(parse("\n\n# only comments\n").is_empty());
}

#[test]
fn render_block_writes_all_options_in_order() {
    assert_eq!(
        render_block(&full_entry()),
        "Host web\n    HostName web.example.com\n    User deploy\n    Port 2222\n    IdentityFile ~/.ssh/id_ed25519\n"
    );
    assert_eq!(render_block(&HostEntry { alias: "a".into(), ..Default::default() }), "Host a\n");
}

#[test]
fn append_block_separates_with_one_blank_line() {
    let e = HostEntry { alias: "b".into(), ..Default::default() };
    assert_eq!(append_block("", &e), "Host b\n");
    assert_eq!(append_block("Host a\n\n", &e), "Host a\n\nHost b\n");
    assert_eq!(append_block("Host a\n", &e), "Host a\n\nHost b\n");
    assert_eq!(append_block("Host a", &e), "Host a\n\nHost b\n");
}

#[test]
fn render_then_parse_gives_the_entry_back() {
    let e = full_entry();
    let hosts = parse(&render_block(&e));
    assert_eq!(hosts.len(), 1);
    assert!(same(&hosts[0], &e));
}

#[test]
fn append_then_parse_adds_exactly_the_entry() {
    let existing = "Host a\n  User u\r";
    let e = full_entry();
    let before = parse(existing);
    let after = parse(&append_block(existing, &e));
    assert_eq!(after.len(), before.len() + 1);
    assert!(same(&after[0], &before[0]));
    assert!(same(&after[1], &e));
}

#[test]
fn add_entry_refuses_duplicate_alias() {
    let r = add_entry("Host web\n  User x\n", &full_entry());
    assert!(matches!(r, Err(ConfigError::AlreadyExists(a)) if a == "web"));
    let ok = add_entry("Host other\n", &full_entry()).unwrap();
    assert!(ok.starts_with("Host other\n\nHost web\n"));
}

#[test]
fn update_entry_checks_new_alias() {
    let content = "Host a\n  User x\n\nHost b\n  User y\n";
    let to_b = HostEntry { alias: "b".into(), ..Default::default() };
    assert!(matches!(update_entry(content, "a", &to_b), Err(ConfigError::AlreadyExists(a)) if a == "b"));
    let same_alias = HostEntry { alias: "a".into(), user: Some("z".into()), ..Default::default() };
    assert_eq!(update_entry(content, "a", &same_alias).unwrap(), "Host a\n  User z\n\nHost b\n  User y\n");
    let to_c = HostEntry { alias: "c".into(), ..Default::default() };
    assert_eq!(update_entry(content, "a", &to_c).unwrap(), "Host c\n\nHost b\n  User y\n");
}

#[test]
fn update_appends_missing_options_with_block_indent() {
    let input = "Host a\n\tUser x\n";
    let e = HostEntry { alias: "a".into(), hostname: Some("h".into()), ..Default::default() };
    assert_eq!(update_in(input, "a", &e).unwrap(), "Host a\n\tHostName h\n");
}

#[test]
fn update_drops_duplicate_option_lines() {
    let input = "  Host a\n  User x\n  user y\n  ForwardAgent yes\n";
    let e = HostEntry { alias: "b".into(), user: Some("z".into()), ..Default::default() };
    assert_eq!(update_in(input, "a", &e).unwrap(), "  Host b\n  User z\n  ForwardAgent yes\n");
}

#[test]
fn update_then_parse_gives_the_entry() {
    let input = "Host x\n  User ux\n\nHost a\n  HostName old\n  ProxyJump j\n\n# next\nHost y\n";
    let e = full_entry();
    let out = update_in(input, "a", &e).unwrap();
    let hosts = parse(&out);
    let aliases: Vec<&str> = hosts.iter().map(|h| h.alias.as_str()).collect();
    assert_eq!(aliases, vec!["x", "web", "y"]);
    assert!(same(&hosts[1], &e));
    assert!(out.contains("\n  ProxyJump j\n"));
    assert!(out.ends_with("\n# next\nHost y\n"));
}

#[test]
fn remove_errors_and_edge_cases() {
    assert!(matches!(remove_in("Host a\n", "zz"), Err(ConfigError::NoStandaloneBlock(a)) if a == "zz"));
    assert!(matches!(update_in("Host a\n", "zz", &full_entry()), Err(ConfigError::NoStandaloneBlock(a)) if a == "zz"));
    assert_eq!(remove_in("Host a\n  User u\n\n\n", "a").unwrap(), "");
    assert_eq!(remove_in("Host a\nHost b\n\nHost c\n", "b").unwrap(), "Host a\nHost c\n");
}

#[test]
fn remove_then_parse_drops_only_that_entry() {
    let input = "Host x\n  User ux\nHost a\n  User ua\nHost y\n  User uy\n";
    let out = remove_in(input, "a").unwrap();
    let hosts = parse(&out);
    let aliases: Vec<&str> = hosts.iter().map(|h| h.alias.as_str()).collect();
    assert_eq!(aliases, vec!["x", "y"]);
    assert_eq!(hosts[0].user.as_deref(), Some("ux"));
}

#[test]
fn find_block_stops_before_comments_of_next_block() {
    let ls = lines_of("Host a\n  User u\n\n# c\nHost b\n");
    assert_eq!(find_block(&ls, &chars("a")), Some((0, 2)));
    assert_eq!(find_block(&ls, &chars("b")), Some((4, 5)));
    assert_eq!(find_block(&ls, &chars("c")), None);
    let multi = lines_of("Host a b\n");
    assert_eq!(find_block(&multi, &chars("a")), None);
}

#[test]
fn trim_block_keeps_the_host_line() {
    let ls = lines_of("Host a\n\n# x\n");
    assert_eq!(trim_block(&ls, 0, 3), (0, 1));
    let ls2 = lines_of("Host a\n  User u\n# x\n");
    assert_eq!(trim_block(&ls2, 0, 3), (0, 2));
}

#[test]
fn indent_and_keyword_splitting() {
    assert_eq!(text(&indent_of(&chars("\t  X y"))), "\t  ");
    assert_eq!(text(&indent_of(&chars("X"))), "");
    let (k, r) = split_keyword(&chars("  Port = 22 ")).unwrap();
    assert_eq!((text(&k), text(&r)), ("port".to_string(), "22 ".to_string()));
    let (k, r) = split_keyword(&chars("HostName\texample")).unwrap();
    assert_eq!((text(&k), text(&r)), ("hostname".to_string(), "example".to_string()));
    let (k, r) = split_keyword(&chars("User=root")).unwrap();
    assert_eq!((text(&k), text(&r)), ("user".to_string(), "root".to_string()));
    assert!(split_keyword(&chars("   # comment")).is_none());
    assert!(split_keyword(&chars("  \t ")).is_none());
}

#[test]
fn port_parsing_matches_u16_from_str() {
    for s in ["22", "+22", "-1", "65535", "65536", "", "+", "0022", "2 2", "00000000000000000001"] {
        assert_eq!(parse_port(&chars(s)), s.parse::<u16>().ok(), "{:?}", s);
    }
}

#[test]
fn display_matches_list_format() {
    let e = HostEntry { alias: "web".into(), hostname: Some("h".into()), ..Default::default() };
    assert_eq!(e.display(), format!("{:<20} {}@{}:{}", "web", "-", "h", "22"));
    let f = full_entry();
    assert_eq!(f.display(), "web                  deploy@web.example.com:2222");
    let long = HostEntry { alias: "a-very-long-alias-name-here".into(), ..Default::default() };
    assert_eq!(long.display(), "a-very-long-alias-name-here -@-:22");
}

#[test]
fn entry_from_answers_validates() {
    assert!(matches!(entry_from_answers("  ", "h", "", "", ""), Err(ConfigError::AliasRequired)));
    assert!(matches!(entry_from_answers("a b", "h", "", "", ""), Err(ConfigError::AliasHasWhitespace)));
    assert!(matches!(entry_from_answers("a", "h", "", " x ", ""), Err(ConfigError::InvalidPort(p)) if p == "x"));
    let e = entry_from_answers("  web ", " h ", "", " 2222 ", "  ").unwrap();
    assert_eq!(e.alias, "web");
    assert_eq!(e.hostname.as_deref(), Some("h"));
    assert_eq!(e.user, None);
    assert_eq!(e.port, Some(2222));
    assert_eq!(e.identity_file, None);
}

#[test]
fn find_host_returns_first_match() {
    let hosts = parse("Host a b\nHost b\n");
    assert_eq!(find_host(&hosts, "b"), Some(1));
    assert_eq!(find_host(&hosts, "z"), None);
}

#[test]
fn default_entry_is_empty() {
    let d = HostEntry::default();
    assert!(same(&d, &HostEntry { alias: String::new(), hostname: None, user: None, port: None, identity_file: None }));
}
