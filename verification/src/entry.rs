//! Checks made before an entry is added, renamed or looked up.

use vstd::prelude::*;
use crate::edit::update_in;
use crate::error::ConfigError;
use crate::host::{hosts_view, HostEntry, HostView};
use crate::number::{parse_port, parse_u16};
use crate::parse::{parse, parsed};
use crate::render::{append_block, rendered, separator};
use crate::text::{
    char_is_ws, chars_eq, has_ws, is_ws, lines, string_of, to_chars, trim, trim_end_chars,
    trim_start_chars, unlines,
};

verus! {

/// Whether some entry has the alias `alias`.
pub open spec fn has_alias(hosts: Seq<HostView>, alias: Seq<char>) -> bool {
    exists|i: int| 0 <= i < hosts.len() && #[trigger] hosts[i].alias == alias
}

/// The index of the first entry with alias `alias`.
pub fn find_host(hosts: &[HostEntry], alias: &str) -> (r: Option<usize>)
    ensures
        match r {
            Some(i) => i < hosts.len() && hosts@[i as int]@.alias == alias@ && forall|k: int|
                0 <= k < i ==> #[trigger] hosts@[k]@.alias != alias@,
            None => !has_alias(hosts_view(hosts@), alias@),
        },
{
    let a = to_chars(alias);
    for i in 0..hosts.len()
        invariant
            a@ == alias@,
            forall|k: int| 0 <= k < i ==> #[trigger] hosts@[k]@.alias != alias@,
    {
        let h = to_chars(hosts[i].alias.as_str());
        if chars_eq(&h, &a) {
            return Some(i);
        }
    }
    proof {
        let hv = hosts_view(hosts@);
        assert forall|i: int| 0 <= i < hv.len() implies #[trigger] hv[i].alias != alias@ by {
            assert(hv[i] == hosts@[i]@);
        }
    }
    None
}

/// The config text with a block for `entry` appended, unless an entry of `existing`
/// already has its alias.
pub fn add_entry(existing: &str, entry: &HostEntry) -> (r: Result<String, ConfigError>)
    ensures
        if has_alias(parsed(existing@), entry@.alias) {
            r matches Err(ConfigError::AlreadyExists(a)) && a@ == entry@.alias
        } else {
            r matches Ok(s) && s@ == existing@ + separator(existing@) + rendered(entry@)
        },
{
    let hosts = parse(existing);
    match find_host(&hosts, entry.alias.as_str()) {
        Some(i) => {
            assert(hosts_view(hosts@)[i as int] == hosts@[i as int]@);
            let a = to_chars(entry.alias.as_str());
            Err(ConfigError::AlreadyExists(string_of(&a)))
        },
        None => Ok(append_block(existing, entry)),
    }
}

/// The config text with the block of `old_alias` rewritten for `entry`, unless the
/// entry takes a new alias that another entry already has.
pub fn update_entry(content: &str, old_alias: &str, entry: &HostEntry) -> (r: Result<
    String,
    ConfigError,
>)
    ensures
        if entry@.alias != old_alias@ && has_alias(parsed(content@), entry@.alias) {
            r matches Err(ConfigError::AlreadyExists(a)) && a@ == entry@.alias
        } else {
            match crate::edit::updated_lines(lines(content@), old_alias@, entry@) {
                Some(ls) => r matches Ok(s) && s@ == unlines(ls),
                None => r matches Err(ConfigError::NoStandaloneBlock(a)) && a@ == old_alias@,
            }
        },
{
    let new_alias = to_chars(entry.alias.as_str());
    let old = to_chars(old_alias);
    if !chars_eq(&new_alias, &old) {
        let hosts = parse(content);
        match find_host(&hosts, entry.alias.as_str()) {
            Some(i) => {
                assert(hosts_view(hosts@)[i as int] == hosts@[i as int]@);
                return Err(ConfigError::AlreadyExists(string_of(&new_alias)));
            },
            None => {},
        }
    }
    update_in(content, old_alias, entry)
}

/// `None` for a blank answer, else the answer trimmed.
pub open spec fn none_if_blank(s: Seq<char>) -> Option<Seq<char>> {
    if trim(s).len() == 0 {
        None
    } else {
        Some(trim(s))
    }
}

fn trim_chars(s: &[char]) -> (r: Vec<char>)
    ensures
        r@ == trim(s@),
{
    let t = trim_start_chars(s);
    trim_end_chars(&t)
}

fn none_if_blank_string(s: &str) -> (r: Option<String>)
    ensures
        crate::host::opt_view(r) == none_if_blank(s@),
{
    let cs = to_chars(s);
    let t = trim_chars(&cs);
    if t.len() == 0 {
        None
    } else {
        Some(string_of(&t))
    }
}

/// The entry built from the answers to the add/edit prompts. The alias is trimmed
/// and must be non-empty and hold no whitespace; a blank port means the default, any
/// other port must parse as a `u16`; blank hostname, user and identity file are absent.
pub fn entry_from_answers(alias: &str, hostname: &str, user: &str, port: &str, identity: &str) -> (r:
    Result<HostEntry, ConfigError>)
    ensures
        if trim(alias@).len() == 0 {
            r matches Err(ConfigError::AliasRequired)
        } else if has_ws(trim(alias@)) {
            r matches Err(ConfigError::AliasHasWhitespace)
        } else if trim(port@).len() > 0 && parse_u16(trim(port@)) is None {
            r matches Err(ConfigError::InvalidPort(p)) && p@ == trim(port@)
        } else {
            r matches Ok(e) && e@ == (HostView {
                alias: trim(alias@),
                hostname: none_if_blank(hostname@),
                user: none_if_blank(user@),
                port: if trim(port@).len() == 0 {
                    None
                } else {
                    parse_u16(trim(port@))
                },
                identity_file: none_if_blank(identity@),
            })
        },
{
    let a_raw = to_chars(alias);
    let a = trim_chars(&a_raw);
    if a.len() == 0 {
        return Err(ConfigError::AliasRequired);
    }
    for i in 0..a.len()
        invariant
            a@ == trim(alias@),
            a.len() > 0,
            forall|k: int| 0 <= k < i ==> !is_ws(#[trigger] a@[k]),
    {
        if char_is_ws(a[i]) {
            assert(is_ws(a@[i as int]));
            return Err(ConfigError::AliasHasWhitespace);
        }
    }
    let p_raw = to_chars(port);
    let p = trim_chars(&p_raw);
    let port_value = if p.len() == 0 {
        None
    } else {
        match parse_port(&p) {
            Some(n) => Some(n),
            None => {
                return Err(ConfigError::InvalidPort(string_of(&p)));
            },
        }
    };
    Ok(
        HostEntry {
            alias: string_of(&a),
            hostname: none_if_blank_string(hostname),
            user: none_if_blank_string(user),
            port: port_value,
            identity_file: none_if_blank_string(identity),
        },
    )
}

} // verus!
