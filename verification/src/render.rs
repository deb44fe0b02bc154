//! Writing host entries as ssh_config text.

use vstd::prelude::*;
use crate::host::{opt_view, HostEntry, HostView};
use crate::number::{decimal_string, push_decimal};
use crate::text::{push_char, push_chars, to_chars};

verus! {

/// `Host `
pub open spec fn host_prefix() -> Seq<char> {
    seq!['H', 'o', 's', 't', ' ']
}

/// The indentation of the option lines this library writes: four spaces.
pub open spec fn default_indent() -> Seq<char> {
    seq![' ', ' ', ' ', ' ']
}

pub open spec fn name_host() -> Seq<char> {
    seq!['H', 'o', 's', 't']
}

pub open spec fn name_hostname() -> Seq<char> {
    seq!['H', 'o', 's', 't', 'N', 'a', 'm', 'e']
}

pub open spec fn name_user() -> Seq<char> {
    seq!['U', 's', 'e', 'r']
}

pub open spec fn name_port() -> Seq<char> {
    seq!['P', 'o', 'r', 't']
}

pub open spec fn name_identity_file() -> Seq<char> {
    seq!['I', 'd', 'e', 'n', 't', 'i', 't', 'y', 'F', 'i', 'l', 'e']
}

/// `indent`, the option name, one space and the value (one line, no line ending).
pub open spec fn option_text(indent: Seq<char>, name: Seq<char>, value: Seq<char>) -> Seq<char> {
    indent + name + seq![' '] + value
}

/// An indented option line with its line ending, or nothing when the value is absent.
pub open spec fn option_line(name: Seq<char>, value: Option<Seq<char>>) -> Seq<char> {
    match value {
        Some(v) => option_text(default_indent(), name, v) + seq!['\n'],
        None => seq![],
    }
}

/// The port as text.
pub open spec fn port_value(p: Option<u16>) -> Option<Seq<char>> {
    match p {
        Some(p) => Some(decimal_string(p as nat)),
        None => None,
    }
}

/// The block written for an entry: `Host alias`, then one indented line for each
/// option that is present, in the order HostName, User, Port, IdentityFile.
pub open spec fn rendered(h: HostView) -> Seq<char> {
    host_prefix() + h.alias + seq!['\n'] + option_line(name_hostname(), h.hostname) + option_line(
        name_user(),
        h.user,
    ) + option_line(name_port(), port_value(h.port)) + option_line(
        name_identity_file(),
        h.identity_file,
    )
}

/// What stands between an existing config text and an appended block, so that the
/// block starts on a line of its own after one blank line: nothing after an empty
/// text or one that ends in a blank line, one line ending after a text that ends
/// with a line ending, and two otherwise.
pub open spec fn separator(existing: Seq<char>) -> Seq<char> {
    if existing.len() == 0 || (existing.len() >= 2 && existing[existing.len() - 1] == '\n'
        && existing[existing.len() - 2] == '\n') {
        seq![]
    } else if existing.last() == '\n' {
        seq!['\n']
    } else {
        seq!['\n', '\n']
    }
}

fn push_option(s: &mut String, name: &[char], value: &Option<String>)
    ensures
        final(s)@ == old(s)@ + option_line(name@, opt_view(*value)),
{
    match value {
        Some(v) => {
            push_chars(s, &[' ', ' ', ' ', ' ']);
            push_chars(s, name);
            push_char(s, ' ');
            let cs = to_chars(v.as_str());
            push_chars(s, &cs);
            push_char(s, '\n');
            assert(s@ =~= old(s)@ + option_line(name@, opt_view(*value)));
        },
        None => {
            assert(s@ =~= old(s)@ + option_line(name@, opt_view(*value)));
        },
    }
}

fn push_rendered(s: &mut String, entry: &HostEntry)
    ensures
        final(s)@ == old(s)@ + rendered(entry@),
{
    let ghost s0 = s@;
    push_chars(s, &['H', 'o', 's', 't', ' ']);
    let alias = to_chars(entry.alias.as_str());
    push_chars(s, &alias);
    push_char(s, '\n');
    push_option(s, &['H', 'o', 's', 't', 'N', 'a', 'm', 'e'], &entry.hostname);
    push_option(s, &['U', 's', 'e', 'r'], &entry.user);
    let ghost s1 = s@;
    match entry.port {
        Some(p) => {
            push_chars(s, &[' ', ' ', ' ', ' ', 'P', 'o', 'r', 't', ' ']);
            push_decimal(s, p);
            push_char(s, '\n');
            assert(s@ =~= s1 + option_line(name_port(), port_value(entry.port)));
        },
        None => {
            assert(s@ =~= s1 + option_line(name_port(), port_value(entry.port)));
        },
    }
    push_option(s, &['I', 'd', 'e', 'n', 't', 'i', 't', 'y', 'F', 'i', 'l', 'e'], &entry.identity_file);
    assert(s@ =~= s0 + rendered(entry@));
}

/// The `Host` block for an entry.
pub fn render_block(entry: &HostEntry) -> (r: String)
    ensures
        r@ == rendered(entry@),
{
    let mut s = String::new();
    push_rendered(&mut s, entry);
    assert(s@ =~= rendered(entry@));
    s
}

/// The config text with the block of `entry` appended after `existing`.
pub fn append_block(existing: &str, entry: &HostEntry) -> (r: String)
    ensures
        r@ == existing@ + separator(existing@) + rendered(entry@),
{
    let cs = to_chars(existing);
    let mut s = String::new();
    push_chars(&mut s, &cs);
    let n = cs.len();
    let ghost s0 = s@;
    if n == 0 || (n >= 2 && cs[n - 1] == '\n' && cs[n - 2] == '\n') {
        assert(s@ =~= existing@ + separator(existing@));
    } else if cs[n - 1] == '\n' {
        push_char(&mut s, '\n');
        assert(s@ =~= existing@ + separator(existing@));
    } else {
        push_char(&mut s, '\n');
        push_char(&mut s, '\n');
        assert(s@ =~= existing@ + separator(existing@));
    }
    push_rendered(&mut s, entry);
    s
}

} // verus!
