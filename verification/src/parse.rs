//! Reading ssh_config text into host entries.

use vstd::prelude::*;
use crate::host::{bare_host, hosts_view, opt_view, HostEntry, HostView};
use crate::number::{parse_port, parse_u16};
use crate::text::{
    char_is_ws, chars_eq, is_ws, lemma_prefix_len, lines, lower, lower_chars, prefix_len, scan_ws,
    seqs_view, split_lines, split_words, string_of, sub_chars, to_chars, trim_end, trim_end_chars,
    trim_quotes, trim_quotes_chars, trim_start, words,
};

verus! {

// ---------------------------------------------------------------------------
// Keywords
// ---------------------------------------------------------------------------

/// A character that may stand in a keyword: not whitespace and not `=`.
pub open spec fn key_char() -> spec_fn(char) -> bool {
    |c: char| !is_ws(c) && c != '='
}

pub open spec fn kw_host() -> Seq<char> {
    seq!['h', 'o', 's', 't']
}

pub open spec fn kw_match() -> Seq<char> {
    seq!['m', 'a', 't', 'c', 'h']
}

pub open spec fn kw_hostname() -> Seq<char> {
    seq!['h', 'o', 's', 't', 'n', 'a', 'm', 'e']
}

pub open spec fn kw_user() -> Seq<char> {
    seq!['u', 's', 'e', 'r']
}

pub open spec fn kw_port() -> Seq<char> {
    seq!['p', 'o', 'r', 't']
}

pub open spec fn kw_identityfile() -> Seq<char> {
    seq!['i', 'd', 'e', 'n', 't', 'i', 't', 'y', 'f', 'i', 'l', 'e']
}

/// A config line split into its lower-cased keyword and the rest of the line.
/// The keyword ends at the first whitespace or `=`; the rest starts after the
/// whitespace that follows, one optional `=`, and the whitespace after that.
/// Blank lines and lines whose first non-blank character is `#` give `None`.
pub open spec fn keyword_of(line: Seq<char>) -> Option<(Seq<char>, Seq<char>)> {
    let t = trim_start(line);
    if t.len() == 0 || t[0] == '#' {
        None
    } else {
        let end = prefix_len(t, key_char()) as int;
        let rest = trim_start(t.skip(end));
        let rest = if rest.len() > 0 && rest[0] == '=' {
            trim_start(rest.drop_first())
        } else {
            rest
        };
        Some((lower(t.take(end)), rest))
    }
}

/// The view of a split line.
pub open spec fn split_view(r: Option<(Vec<char>, Vec<char>)>) -> Option<(Seq<char>, Seq<char>)> {
    match r {
        Some((k, v)) => Some((k@, v@)),
        None => None,
    }
}

/// End of the run of keyword characters that starts at `from`.
fn scan_key(s: &[char], from: usize) -> (j: usize)
    requires
        from <= s.len(),
    ensures
        from <= j <= s.len(),
        j - from == prefix_len(s@.skip(from as int), key_char()),
{
    let mut j = from;
    while j < s.len() && !char_is_ws(s[j]) && s[j] != '='
        invariant
            from <= j <= s.len(),
            forall|k: int| from <= k < j ==> (key_char())(#[trigger] s@[k]),
        decreases s.len() - j,
    {
        j += 1;
    }
    proof {
        let t = s@.skip(from as int);
        assert forall|k: int| 0 <= k < j - from implies (key_char())(#[trigger] t[k]) by {
            assert(t[k] == s@[from + k]);
        }
        if j < s.len() {
            assert(t[j - from] == s@[j as int]);
        }
        lemma_prefix_len(t, key_char(), j - from);
    }
    j
}

/// Split a config line into its lower-cased keyword and the rest of the line.
pub fn split_keyword(line: &[char]) -> (r: Option<(Vec<char>, Vec<char>)>)
    ensures
        split_view(r) == keyword_of(line@),
{
    let a = scan_ws(line, 0);
    assert(line@.skip(0) == line@);
    let ghost t = line@.skip(a as int);
    assert(trim_start(line@) == t);
    if a == line.len() || line[a] == '#' {
        return None;
    }
    let e = scan_key(line, a);
    assert(t.skip(e - a) =~= line@.skip(e as int));
    assert(t.take(e - a) =~= line@.subrange(a as int, e as int));
    let key = lower_chars(&sub_chars(line, a, e));
    let b = scan_ws(line, e);
    assert(trim_start(line@.skip(e as int)) =~= line@.skip(b as int));
    if b < line.len() && line[b] == '=' {
        let c = scan_ws(line, b + 1);
        assert(line@.skip(b as int).drop_first() =~= line@.skip(b + 1));
        assert(trim_start(line@.skip(b + 1)) =~= line@.skip(c as int));
        let rest = sub_chars(line, c, line.len());
        assert(rest@ =~= line@.skip(c as int));
        Some((key, rest))
    } else {
        let rest = sub_chars(line, b, line.len());
        assert(rest@ =~= line@.skip(b as int));
        Some((key, rest))
    }
}

// ---------------------------------------------------------------------------
// Parsing
// ---------------------------------------------------------------------------

/// An alias that is a pattern rather than a host name: it holds `*` or `?`, or is
/// negated with a leading `!`.
pub open spec fn is_pattern(alias: Seq<char>) -> bool {
    alias.contains('*') || alias.contains('?') || (alias.len() > 0 && alias[0] == '!')
}

/// Fresh entries for the aliases of a `Host` line, patterns left out.
pub open spec fn hosts_for(aliases: Seq<Seq<char>>) -> Seq<HostView>
    decreases aliases.len(),
{
    if aliases.len() == 0 {
        seq![]
    } else {
        let init = hosts_for(aliases.drop_last());
        if is_pattern(aliases.last()) {
            init
        } else {
            init.push(bare_host(aliases.last()))
        }
    }
}

/// The parse after some lines: finished entries, and those of the open `Host` block.
#[verifier::ext_equal]
pub struct ParseState {
    pub hosts: Seq<HostView>,
    pub current: Seq<HostView>,
}

pub open spec fn set_hostname(cur: Seq<HostView>, v: Seq<char>) -> Seq<HostView> {
    cur.map_values(
        |h: HostView|
            HostView {
                alias: h.alias,
                hostname: Some(v),
                user: h.user,
                port: h.port,
                identity_file: h.identity_file,
            },
    )
}

pub open spec fn set_user(cur: Seq<HostView>, v: Seq<char>) -> Seq<HostView> {
    cur.map_values(
        |h: HostView|
            HostView {
                alias: h.alias,
                hostname: h.hostname,
                user: Some(v),
                port: h.port,
                identity_file: h.identity_file,
            },
    )
}

pub open spec fn set_port(cur: Seq<HostView>, p: u16) -> Seq<HostView> {
    cur.map_values(
        |h: HostView|
            HostView {
                alias: h.alias,
                hostname: h.hostname,
                user: h.user,
                port: Some(p),
                identity_file: h.identity_file,
            },
    )
}

pub open spec fn set_identity_file(cur: Seq<HostView>, v: Seq<char>) -> Seq<HostView> {
    cur.map_values(
        |h: HostView|
            HostView {
                alias: h.alias,
                hostname: h.hostname,
                user: h.user,
                port: h.port,
                identity_file: Some(v),
            },
    )
}

/// The value of an option line: the rest of the line without trailing whitespace
/// and without surrounding double quotes.
pub open spec fn option_value(rest: Seq<char>) -> Seq<char> {
    trim_quotes(trim_end(rest))
}

/// The effect of one line. `Host` closes the open block and opens one with an
/// entry per non-pattern alias; `Match` closes it and opens an empty scope;
/// `HostName`, `User`, `IdentityFile` and a valid `Port` set that option on every
/// entry of the open block; every other line changes nothing.
pub open spec fn step(st: ParseState, line: Seq<char>) -> ParseState {
    match keyword_of(line) {
        None => st,
        Some((key, rest)) => {
            let value = option_value(rest);
            if key == kw_host() {
                ParseState { hosts: st.hosts + st.current, current: hosts_for(words(value)) }
            } else if key == kw_match() {
                ParseState { hosts: st.hosts + st.current, current: seq![] }
            } else if key == kw_hostname() {
                ParseState { hosts: st.hosts, current: set_hostname(st.current, value) }
            } else if key == kw_user() {
                ParseState { hosts: st.hosts, current: set_user(st.current, value) }
            } else if key == kw_port() {
                match parse_u16(value) {
                    Some(p) => ParseState { hosts: st.hosts, current: set_port(st.current, p) },
                    None => st,
                }
            } else if key == kw_identityfile() {
                ParseState { hosts: st.hosts, current: set_identity_file(st.current, value) }
            } else {
                st
            }
        },
    }
}

/// No entries and no open block.
pub open spec fn start_state() -> ParseState {
    ParseState { hosts: seq![], current: seq![] }
}

/// The state after reading `ls` in order, starting from `st`.
pub open spec fn run_from(st: ParseState, ls: Seq<Seq<char>>) -> ParseState
    decreases ls.len(),
{
    if ls.len() == 0 {
        st
    } else {
        step(run_from(st, ls.drop_last()), ls.last())
    }
}

/// The state after reading `ls` in order, from no entries and no open block.
pub open spec fn run(ls: Seq<Seq<char>>) -> ParseState {
    run_from(start_state(), ls)
}

/// The host entries of a config text, in file order.
pub open spec fn parsed(content: Seq<char>) -> Seq<HostView> {
    let st = run(lines(content));
    st.hosts + st.current
}

/// The view of an optional character vector.
pub open spec fn opt_chars(o: Option<Vec<char>>) -> Option<Seq<char>> {
    match o {
        Some(v) => Some(v@),
        None => None,
    }
}

/// The open block while parsing: its aliases and the options every one of them shares.
struct Block {
    aliases: Vec<Vec<char>>,
    hostname: Option<Vec<char>>,
    user: Option<Vec<char>>,
    port: Option<u16>,
    identity_file: Option<Vec<char>>,
}

impl Block {
    spec fn entry(&self, a: Seq<char>) -> HostView {
        HostView {
            alias: a,
            hostname: opt_chars(self.hostname),
            user: opt_chars(self.user),
            port: self.port,
            identity_file: opt_chars(self.identity_file),
        }
    }

    spec fn entries(&self) -> Seq<HostView> {
        seqs_view(self.aliases@).map_values(|a: Seq<char>| self.entry(a))
    }
}

fn opt_string(o: &Option<Vec<char>>) -> (r: Option<String>)
    ensures
        opt_view(r) == opt_chars(*o),
{
    match o {
        Some(v) => Some(string_of(v)),
        None => None,
    }
}

/// Whether the alias is a pattern.
pub fn alias_is_pattern(alias: &[char]) -> (r: bool)
    ensures
        r == is_pattern(alias@),
{
    if alias.len() > 0 && alias[0] == '!' {
        return true;
    }
    for i in 0..alias.len()
        invariant
            forall|k: int| 0 <= k < i ==> alias@[k] != '*' && alias@[k] != '?',
    {
        if alias[i] == '*' || alias[i] == '?' {
            assert(alias@[i as int] == alias@[i as int]);
            return true;
        }
    }
    assert(!alias@.contains('*'));
    assert(!alias@.contains('?'));
    false
}

/// The non-pattern aliases of a `Host` value.
fn aliases_of(value: &[char]) -> (r: Vec<Vec<char>>)
    ensures
        seqs_view(r@).map_values(|a: Seq<char>| bare_host(a)) == hosts_for(words(value@)),
{
    let ws = split_words(value);
    let ghost wv = seqs_view(ws@);
    let mut r: Vec<Vec<char>> = Vec::new();
    for i in 0..ws.len()
        invariant
            wv == seqs_view(ws@),
            seqs_view(r@).map_values(|a: Seq<char>| bare_host(a)) == hosts_for(wv.take(i as int)),
    {
        assert(wv.take(i + 1).drop_last() =~= wv.take(i as int));
        assert(wv.take(i + 1).last() == ws@[i as int]@);
        if !alias_is_pattern(&ws[i]) {
            let ghost before = r@;
            let w = sub_chars(&ws[i], 0, ws[i].len());
            assert(w@ =~= ws@[i as int]@);
            r.push(w);
            assert(seqs_view(r@).map_values(|a: Seq<char>| bare_host(a)) =~= seqs_view(
                before,
            ).map_values(|a: Seq<char>| bare_host(a)).push(bare_host(w@)));
        }
    }
    assert(wv.take(ws.len() as int) =~= wv);
    r
}

/// Move the entries of the open block to the finished list.
fn flush(hosts: &mut Vec<HostEntry>, block: &Block)
    ensures
        hosts_view(final(hosts)@) == hosts_view(old(hosts)@) + block.entries(),
{
    let ghost start = hosts_view(hosts@);
    for i in 0..block.aliases.len()
        invariant
            hosts_view(hosts@) == start + block.entries().take(i as int),
    {
        let e = HostEntry {
            alias: string_of(&block.aliases[i]),
            hostname: opt_string(&block.hostname),
            user: opt_string(&block.user),
            port: block.port,
            identity_file: opt_string(&block.identity_file),
        };
        let ghost before = hosts@;
        hosts.push(e);
        assert(hosts_view(hosts@) =~= hosts_view(before).push(e@));
        assert(block.entries().take(i + 1) =~= block.entries().take(i as int).push(e@));
    }
    assert(block.entries().take(block.aliases.len() as int) =~= block.entries());
}

/// Apply one line to the parse.
fn apply_line(hosts: &mut Vec<HostEntry>, block: &mut Block, line: &[char])
    ensures
        step(ParseState { hosts: hosts_view(old(hosts)@), current: old(block).entries() }, line@)
            == (ParseState { hosts: hosts_view(final(hosts)@), current: final(block).entries() }),
{
    let kw_host_a = ['h', 'o', 's', 't'];
    let kw_match_a = ['m', 'a', 't', 'c', 'h'];
    let kw_hostname_a = ['h', 'o', 's', 't', 'n', 'a', 'm', 'e'];
    let kw_user_a = ['u', 's', 'e', 'r'];
    let kw_port_a = ['p', 'o', 'r', 't'];
    let kw_identityfile_a = ['i', 'd', 'e', 'n', 't', 'i', 't', 'y', 'f', 'i', 'l', 'e'];
    assert(kw_host_a@ == kw_host());
    assert(kw_match_a@ == kw_match());
    assert(kw_hostname_a@ == kw_hostname());
    assert(kw_user_a@ == kw_user());
    assert(kw_port_a@ == kw_port());
    assert(kw_identityfile_a@ == kw_identityfile());
    let ghost st = ParseState { hosts: hosts_view(hosts@), current: block.entries() };
    match split_keyword(line) {
        None => {},
        Some((key, rest)) => {
            let value = trim_quotes_chars(&trim_end_chars(&rest));
            assert(value@ == option_value(rest@));
            if chars_eq(&key, &kw_host_a) {
                flush(hosts, block);
                *block = Block {
                    aliases: aliases_of(&value),
                    hostname: None,
                    user: None,
                    port: None,
                    identity_file: None,
                };
                assert(block.entries() =~= hosts_for(words(value@)));
            } else if chars_eq(&key, &kw_match_a) {
                flush(hosts, block);
                *block = Block {
                    aliases: Vec::new(),
                    hostname: None,
                    user: None,
                    port: None,
                    identity_file: None,
                };
                assert(block.entries() =~= seq![]);
            } else if chars_eq(&key, &kw_hostname_a) {
                block.hostname = Some(value);
                assert(block.entries() =~= set_hostname(st.current, value@));
            } else if chars_eq(&key, &kw_user_a) {
                block.user = Some(value);
                assert(block.entries() =~= set_user(st.current, value@));
            } else if chars_eq(&key, &kw_port_a) {
                match parse_port(&value) {
                    Some(p) => {
                        block.port = Some(p);
                        assert(block.entries() =~= set_port(st.current, p));
                    },
                    None => {},
                }
            } else if chars_eq(&key, &kw_identityfile_a) {
                block.identity_file = Some(value);
                assert(block.entries() =~= set_identity_file(st.current, value@));
            }
        },
    }
}

/// Parse an ssh_config text into its host entries, in file order. Every alias of a
/// `Host` line that is not a pattern gives one entry, which takes the `HostName`,
/// `User`, `Port` and `IdentityFile` lines of its block; options under a `Match`
/// line belong to no entry.
pub fn parse(content: &str) -> (r: Vec<HostEntry>)
    ensures
        hosts_view(r@) == parsed(content@),
        crate::laws::all_host_names(hosts_view(r@)),
{
    let chars = to_chars(content);
    let ls = split_lines(&chars);
    let ghost lv = seqs_view(ls@);
    let mut hosts: Vec<HostEntry> = Vec::new();
    let mut block = Block {
        aliases: Vec::new(),
        hostname: None,
        user: None,
        port: None,
        identity_file: None,
    };
    assert(hosts_view(hosts@) =~= seq![]);
    assert(block.entries() =~= seq![]);
    assert(lv.take(0) =~= seq![]);
    for i in 0..ls.len()
        invariant
            lv == seqs_view(ls@),
            run(lv.take(i as int)) == (ParseState {
                hosts: hosts_view(hosts@),
                current: block.entries(),
            }),
    {
        apply_line(&mut hosts, &mut block, &ls[i]);
        assert(lv.take(i + 1).drop_last() =~= lv.take(i as int));
        assert(lv.take(i + 1).last() == ls@[i as int]@);
    }
    assert(lv.take(ls.len() as int) =~= lv);
    flush(&mut hosts, &block);
    proof {
        crate::laws::parsed_aliases_are_host_names(content@);
    }
    hosts
}

} // verus!
