//! Rewriting and removing one `Host` block of an ssh_config text, leaving every
//! other line as it was.

use vstd::prelude::*;
use crate::error::ConfigError;
use crate::host::{opt_view, HostEntry, HostView};
use crate::number::push_decimal;
use crate::parse::{
    keyword_of, kw_host, kw_hostname, kw_identityfile, kw_match, kw_port, kw_user, split_keyword,
};
use crate::render::{
    default_indent, host_prefix, name_hostname, name_identity_file, name_port, name_user,
    option_text, port_value,
};
use crate::text::{
    chars_blank, chars_eq, copy_chars, is_blank, is_ws, join_lines, lemma_prefix_len,
    lemma_suffix_len, lines, prefix_len, scan_ws, seqs_view, split_lines, split_words, string_of,
    sub_chars, suffix_len, to_chars, trim, unlines, words, ws,
};

verus! {

// ---------------------------------------------------------------------------
// Locating a block
// ---------------------------------------------------------------------------

/// A line that starts a new scope: a `Host` or `Match` line.
pub open spec fn is_header(line: Seq<char>) -> bool {
    match keyword_of(line) {
        Some((k, _)) => k == kw_host() || k == kw_match(),
        None => false,
    }
}

/// A `Host` line that names exactly `alias` and nothing else.
pub open spec fn is_target(line: Seq<char>, alias: Seq<char>) -> bool {
    match keyword_of(line) {
        Some((k, rest)) => k == kw_host() && words(rest) == seq![alias],
        None => false,
    }
}

/// A blank or comment line, which by convention belongs to the block after it.
pub open spec fn is_filler(line: Seq<char>) -> bool {
    let t = trim(line);
    t.len() == 0 || t[0] == '#'
}

pub open spec fn not_target(alias: Seq<char>) -> spec_fn(Seq<char>) -> bool {
    |l: Seq<char>| !is_target(l, alias)
}

pub open spec fn not_header() -> spec_fn(Seq<char>) -> bool {
    |l: Seq<char>| !is_header(l)
}

pub open spec fn filler() -> spec_fn(Seq<char>) -> bool {
    |l: Seq<char>| is_filler(l)
}

pub open spec fn blank() -> spec_fn(Seq<char>) -> bool {
    |l: Seq<char>| is_blank(l)
}

/// `end` moved back over the blank and comment lines that end the block starting at
/// `start`, keeping at least the `Host` line.
pub open spec fn trimmed_end(ls: Seq<Seq<char>>, start: int, end: int) -> int {
    end - suffix_len(ls.subrange(start + 1, end), filler()) as int
}

/// The block of the first `Host` line that names exactly `alias`: its first line, and
/// the line after its last, where the block ends at the next `Host` or `Match` line
/// (or the end of the text) less the blank and comment lines right before that.
pub open spec fn block_of(ls: Seq<Seq<char>>, alias: Seq<char>) -> Option<(int, int)> {
    let start = prefix_len(ls, not_target(alias)) as int;
    if start >= ls.len() {
        None
    } else {
        let stop = start + 1 + prefix_len(ls.skip(start + 1), not_header()) as int;
        Some((start, trimmed_end(ls, start, stop)))
    }
}

/// The leading whitespace of a line.
pub open spec fn indent(line: Seq<char>) -> Seq<char> {
    line.take(prefix_len(line, ws()) as int)
}

/// The leading whitespace of a line.
pub fn indent_of(line: &[char]) -> (r: Vec<char>)
    ensures
        r@ == indent(line@),
{
    let n = scan_ws(line, 0);
    assert(line@.skip(0) == line@);
    sub_chars(line, 0, n)
}

fn is_filler_line(line: &[char]) -> (r: bool)
    ensures
        r == is_filler(line@),
{
    let a = scan_ws(line, 0);
    assert(line@.skip(0) == line@);
    let mut b = line.len();
    while b > a && crate::text::char_is_ws(line[b - 1])
        invariant
            a <= b <= line.len(),
            forall|k: int| b <= k < line.len() ==> is_ws(#[trigger] line@[k]),
        decreases b,
    {
        b -= 1;
    }
    proof {
        let t = line@.skip(a as int);
        assert forall|k: int| t.len() - (line.len() - b) <= k < t.len() implies (ws())(
            #[trigger] t[k],
        ) by {
            assert(t[k] == line@[a + k]);
        }
        if b > a {
            assert(t[t.len() - 1 - (line.len() - b)] == line@[b - 1]);
        }
        lemma_suffix_len(t, ws(), line.len() - b);
        assert(trim(line@) =~= line@.subrange(a as int, b as int));
    }
    a == b || line[a] == '#'
}

/// Move `end` back over trailing blank and comment lines of the block that starts at
/// `start`, never past the line after `start`.
pub fn trim_block(lines: &[Vec<char>], start: usize, end: usize) -> (r: (usize, usize))
    requires
        start < end <= lines.len(),
    ensures
        r.0 == start,
        start < r.1 <= end,
        r.1 == trimmed_end(seqs_view(lines@), start as int, end as int),
{
    let ghost lv = seqs_view(lines@);
    let mut e = end;
    while e > start + 1 && is_filler_line(&lines[e - 1])
        invariant
            start < e <= end <= lines.len(),
            lv == seqs_view(lines@),
            forall|k: int| e <= k < end ==> is_filler(#[trigger] lv[k]),
        decreases e,
    {
        e -= 1;
    }
    proof {
        let sub = lv.subrange(start + 1, end as int);
        assert forall|k: int| sub.len() - (end - e) <= k < sub.len() implies (filler())(
            #[trigger] sub[k],
        ) by {
            assert(sub[k] == lv[start + 1 + k]);
        }
        if e > start + 1 {
            assert(sub[sub.len() - 1 - (end - e)] == lv[e - 1]);
        }
        lemma_suffix_len(sub, filler(), end - e);
    }
    (start, e)
}

fn line_kind(line: &[char], alias: &[char]) -> (r: (bool, bool))
    ensures
        r.0 == is_header(line@),
        r.1 == is_target(line@, alias@),
{
    let kw_host_a = ['h', 'o', 's', 't'];
    let kw_match_a = ['m', 'a', 't', 'c', 'h'];
    assert(kw_host_a@ == kw_host());
    assert(kw_match_a@ == kw_match());
    match split_keyword(line) {
        None => (false, false),
        Some((key, rest)) => {
            let is_host = chars_eq(&key, &kw_host_a);
            let header = is_host || chars_eq(&key, &kw_match_a);
            if !is_host {
                return (header, false);
            }
            let ws = split_words(&rest);
            let target = ws.len() == 1 && chars_eq(&ws[0], alias);
            proof {
                if ws.len() == 1 {
                    if seqs_view(ws@) == seq![alias@] {
                        assert(seqs_view(ws@)[0] == ws@[0]@);
                    }
                    if ws@[0]@ == alias@ {
                        assert(seqs_view(ws@) =~= seq![alias@]);
                    }
                }
            }
            (header, target)
        },
    }
}

/// Locate the block whose `Host` line names exactly `alias`: its first line and the
/// line after its last. The block ends before the next `Host` or `Match` line, less
/// the blank and comment lines right before that line, which belong to what follows.
pub fn find_block(lines: &[Vec<char>], alias: &[char]) -> (r: Option<(usize, usize)>)
    ensures
        match r {
            Some((s, e)) => s < e <= lines.len() && block_of(seqs_view(lines@), alias@) == Some(
                (s as int, e as int),
            ),
            None => block_of(seqs_view(lines@), alias@) is None,
        },
{
    let ghost lv = seqs_view(lines@);
    let mut start: Option<usize> = None;
    for i in 0..lines.len()
        invariant
            lv == seqs_view(lines@),
            start is None ==> forall|k: int| 0 <= k < i ==> !is_target(#[trigger] lv[k], alias@),
            start matches Some(s) ==> {
                &&& s < i
                &&& is_target(lv[s as int], alias@)
                &&& forall|k: int| 0 <= k < s ==> !is_target(#[trigger] lv[k], alias@)
                &&& forall|k: int| s < k < i ==> !is_header(#[trigger] lv[k])
            },
    {
        let (header, target) = line_kind(&lines[i], alias);
        assert(lv[i as int] == lines@[i as int]@);
        if header {
            if let Some(s) = start {
                proof {
                    assert forall|k: int| 0 <= k < s implies (not_target(alias@))(#[trigger] lv[k]) by {}
                    lemma_prefix_len(lv, not_target(alias@), s as int);
                    let rest = lv.skip(s + 1);
                    assert forall|k: int| 0 <= k < i - s - 1 implies (not_header())(#[trigger] rest[k]) by {
                        assert(rest[k] == lv[s + 1 + k]);
                    }
                    assert(rest[i - s - 1] == lv[i as int]);
                    lemma_prefix_len(rest, not_header(), i - s - 1);
                }
                return Some(trim_block(lines, s, i));
            }
            if target {
                start = Some(i);
            }
        } else {
            proof {
                // a line that is no `Host` line is no target
                if is_target(lv[i as int], alias@) {
                    assert(is_header(lv[i as int]));
                }
            }
        }
    }
    match start {
        Some(s) => {
            proof {
                assert forall|k: int| 0 <= k < s implies (not_target(alias@))(#[trigger] lv[k]) by {}
                lemma_prefix_len(lv, not_target(alias@), s as int);
                let rest = lv.skip(s + 1);
                assert forall|k: int| 0 <= k < lines.len() - s - 1 implies (not_header())(#[trigger] rest[k]) by {
                    assert(rest[k] == lv[s + 1 + k]);
                }
                lemma_prefix_len(rest, not_header(), lines.len() - s - 1);
            }
            Some(trim_block(lines, s, lines.len()))
        },
        None => {
            proof {
                assert forall|k: int| 0 <= k < lv.len() implies (not_target(alias@))(#[trigger] lv[k]) by {}
                lemma_prefix_len(lv, not_target(alias@), lv.len() as int);
            }
            None
        },
    }
}

// ---------------------------------------------------------------------------
// Rewriting a block
// ---------------------------------------------------------------------------

/// The options this library writes, in the order it writes them.
pub open spec fn option_names() -> Seq<Seq<char>> {
    seq![name_hostname(), name_user(), name_port(), name_identity_file()]
}

/// Which of `option_names()` a lower-cased keyword names (compared without regard to
/// ASCII case), or -1.
pub open spec fn slot(key: Seq<char>) -> int {
    if key == kw_hostname() {
        0
    } else if key == kw_user() {
        1
    } else if key == kw_port() {
        2
    } else if key == kw_identityfile() {
        3
    } else {
        -1
    }
}

/// The new values of the four options, in the order of `option_names()`.
pub open spec fn new_values(e: HostView) -> Seq<Option<Seq<char>>> {
    seq![e.hostname, e.user, port_value(e.port), e.identity_file]
}

/// The rewrite of a block's body after some of its lines: the lines written so far,
/// the option values not yet written, and the indentation of the first option line.
#[verifier::ext_equal]
pub struct Rewrite {
    pub out: Seq<Seq<char>>,
    pub pending: Seq<Option<Seq<char>>>,
    pub indent: Option<Seq<char>>,
}

/// One line of the body. Lines without a keyword, and option lines that this library
/// does not model, are kept as they are. The first line for a modelled option gets
/// the new value (with the line's own indentation), or is dropped when the option is
/// cleared; later lines for the same option are dropped.
pub open spec fn rewrite_step(st: Rewrite, line: Seq<char>) -> Rewrite {
    match keyword_of(line) {
        None => Rewrite { out: st.out.push(line), pending: st.pending, indent: st.indent },
        Some((key, _)) => {
            let ind = match st.indent {
                Some(i) => Some(i),
                None => Some(indent(line)),
            };
            let k = slot(key);
            if k >= 0 {
                match st.pending[k] {
                    Some(v) => Rewrite {
                        out: st.out.push(option_text(indent(line), option_names()[k], v)),
                        pending: st.pending.update(k, None),
                        indent: ind,
                    },
                    None => Rewrite { out: st.out, pending: st.pending, indent: ind },
                }
            } else {
                Rewrite { out: st.out.push(line), pending: st.pending, indent: ind }
            }
        },
    }
}

/// The rewrite after the body lines `body`, in order.
pub open spec fn rewrite_run(init: Rewrite, body: Seq<Seq<char>>) -> Rewrite
    decreases body.len(),
{
    if body.len() == 0 {
        init
    } else {
        rewrite_step(rewrite_run(init, body.drop_last()), body.last())
    }
}

/// The line for option `k` with its pending value, or nothing.
pub open spec fn pending_line(pending: Seq<Option<Seq<char>>>, k: int, ind: Seq<char>) -> Seq<
    Seq<char>,
> {
    match pending[k] {
        Some(v) => seq![option_text(ind, option_names()[k], v)],
        None => seq![],
    }
}

/// The lines for the options that the body did not mention, in the order of
/// `option_names()`.
pub open spec fn pending_lines(pending: Seq<Option<Seq<char>>>, ind: Seq<char>) -> Seq<Seq<char>> {
    pending_line(pending, 0, ind) + pending_line(pending, 1, ind) + pending_line(pending, 2, ind)
        + pending_line(pending, 3, ind)
}

/// The lines that replace a block: its `Host` line with the new alias and the
/// header's own indentation, the rewritten body, then the options still to write,
/// indented as the body's first option line (four spaces if it has none).
pub open spec fn new_block(header: Seq<char>, body: Seq<Seq<char>>, e: HostView) -> Seq<Seq<char>> {
    let st = rewrite_run(Rewrite { out: seq![], pending: new_values(e), indent: None }, body);
    let ind = match st.indent {
        Some(i) => i,
        None => default_indent(),
    };
    seq![indent(header) + host_prefix() + e.alias] + st.out + pending_lines(st.pending, ind)
}

/// The lines of a config text after replacing the block of `alias` by one for `e`.
pub open spec fn updated_lines(ls: Seq<Seq<char>>, alias: Seq<char>, e: HostView) -> Option<
    Seq<Seq<char>>,
> {
    match block_of(ls, alias) {
        Some((s, t)) => Some(ls.take(s) + new_block(ls[s], ls.subrange(s + 1, t), e) + ls.skip(t)),
        None => None,
    }
}

/// The view of the pending values.
pub open spec fn pending_view(p: Seq<Option<Vec<char>>>) -> Seq<Option<Seq<char>>> {
    p.map_values(|o: Option<Vec<char>>| crate::parse::opt_chars(o))
}

fn option_name(k: usize) -> (r: Vec<char>)
    requires
        k < 4,
    ensures
        r@ == option_names()[k as int],
{
    let r = if k == 0 {
        copy_chars(&['H', 'o', 's', 't', 'N', 'a', 'm', 'e'])
    } else if k == 1 {
        copy_chars(&['U', 's', 'e', 'r'])
    } else if k == 2 {
        copy_chars(&['P', 'o', 'r', 't'])
    } else {
        copy_chars(&['I', 'd', 'e', 'n', 't', 'i', 't', 'y', 'F', 'i', 'l', 'e'])
    };
    r
}

fn key_slot(key: &[char]) -> (r: usize)
    ensures
        r <= 4,
        r < 4 ==> slot(key@) == r,
        r == 4 ==> slot(key@) == -1,
{
    let a0 = ['h', 'o', 's', 't', 'n', 'a', 'm', 'e'];
    let a1 = ['u', 's', 'e', 'r'];
    let a2 = ['p', 'o', 'r', 't'];
    let a3 = ['i', 'd', 'e', 'n', 't', 'i', 't', 'y', 'f', 'i', 'l', 'e'];
    assert(a0@ == kw_hostname());
    assert(a1@ == kw_user());
    assert(a2@ == kw_port());
    assert(a3@ == kw_identityfile());
    if chars_eq(key, &a0) {
        0
    } else if chars_eq(key, &a1) {
        1
    } else if chars_eq(key, &a2) {
        2
    } else if chars_eq(key, &a3) {
        3
    } else {
        4
    }
}

/// `indent`, `name`, a space and `value` as one line.
fn option_text_chars(ind: &[char], name: &[char], value: &[char]) -> (r: Vec<char>)
    ensures
        r@ == option_text(ind@, name@, value@),
{
    let mut r = copy_chars(ind);
    for i in 0..name.len()
        invariant
            r@ == ind@ + name@.take(i as int),
    {
        r.push(name[i]);
        assert(name@.take(i + 1) =~= name@.take(i as int).push(name@[i as int]));
    }
    assert(name@.take(name.len() as int) =~= name@);
    r.push(' ');
    let ghost mid = r@;
    for i in 0..value.len()
        invariant
            r@ == mid + value@.take(i as int),
    {
        r.push(value[i]);
        assert(value@.take(i + 1) =~= value@.take(i as int).push(value@[i as int]));
    }
    assert(value@.take(value.len() as int) =~= value@);
    assert(r@ =~= option_text(ind@, name@, value@));
    r
}

fn opt_string_chars(o: &Option<String>) -> (r: Option<Vec<char>>)
    ensures
        crate::parse::opt_chars(r) == opt_view(*o),
{
    match o {
        Some(s) => Some(to_chars(s.as_str())),
        None => None,
    }
}

fn port_chars(p: Option<u16>) -> (r: Option<Vec<char>>)
    ensures
        crate::parse::opt_chars(r) == port_value(p),
{
    match p {
        Some(n) => {
            let mut s = String::new();
            push_decimal(&mut s, n);
            assert(s@ =~= crate::number::decimal_string(n as nat));
            Some(to_chars(s.as_str()))
        },
        None => None,
    }
}

/// The lines that replace the block `lines[start..end]`.
fn rewrite_block(lines: &[Vec<char>], start: usize, end: usize, entry: &HostEntry) -> (r: Vec<
    Vec<char>,
>)
    requires
        start < end <= lines.len(),
    ensures
        seqs_view(r@) == new_block(
            seqs_view(lines@)[start as int],
            seqs_view(lines@).subrange(start + 1, end as int),
            entry@,
        ),
{
    let ghost lv = seqs_view(lines@);
    let ghost body = lv.subrange(start + 1, end as int);
    let ghost init = Rewrite { out: seq![], pending: new_values(entry@), indent: None };
    let mut pending: Vec<Option<Vec<char>>> = Vec::new();
    pending.push(opt_string_chars(&entry.hostname));
    pending.push(opt_string_chars(&entry.user));
    pending.push(port_chars(entry.port));
    pending.push(opt_string_chars(&entry.identity_file));
    assert(pending_view(pending@) =~= new_values(entry@));
    let mut out: Vec<Vec<char>> = Vec::new();
    let mut ind: Option<Vec<char>> = None;
    assert(body.take(0) =~= seq![]);
    assert(seqs_view(out@) =~= seq![]);
    let mut i = start + 1;
    while i < end
        invariant
            start < i <= end <= lines.len(),
            lv == seqs_view(lines@),
            body == lv.subrange(start + 1, end as int),
            pending.len() == 4,
            rewrite_run(init, body.take(i - start - 1)) == (Rewrite {
                out: seqs_view(out@),
                pending: pending_view(pending@),
                indent: crate::parse::opt_chars(ind),
            }),
        decreases end - i,
    {
        let ghost st = rewrite_run(init, body.take(i - start - 1));
        let line = &lines[i];
        assert(body.take(i - start).drop_last() =~= body.take(i - start - 1));
        assert(body.take(i - start).last() == line@);
        let ghost before = out@;
        match split_keyword(line) {
            None => {
                out.push(copy_chars(line));
                assert(seqs_view(out@) =~= seqs_view(before).push(line@));
            },
            Some((key, _rest)) => {
                let line_indent = indent_of(line);
                if ind.is_none() {
                    ind = Some(copy_chars(&line_indent));
                }
                let k = key_slot(&key);
                if k < 4 {
                    match &pending[k] {
                        Some(v) => {
                            let name = option_name(k);
                            let text = option_text_chars(&line_indent, &name, v);
                            out.push(text);
                            assert(seqs_view(out@) =~= seqs_view(before).push(
                                option_text(indent(line@), option_names()[k as int], st.pending[k as int]->0),
                            ));
                            pending.set(k, None);
                            assert(pending_view(pending@) =~= st.pending.update(k as int, None));
                        },
                        None => {},
                    }
                } else {
                    out.push(copy_chars(line));
                    assert(seqs_view(out@) =~= seqs_view(before).push(line@));
                }
            },
        }
        i += 1;
    }
    assert(body.take(end - start - 1) =~= body);
    let ghost st = rewrite_run(init, body);
    let indent_used = match ind {
        Some(v) => v,
        None => copy_chars(&[' ', ' ', ' ', ' ']),
    };
    assert(indent_used@ == (match st.indent {
        Some(i) => i,
        None => default_indent(),
    }));
    let mut block: Vec<Vec<char>> = Vec::new();
    let header_indent = indent_of(&lines[start]);
    let alias = to_chars(entry.alias.as_str());
    let host_line = option_text_chars(&header_indent, &['H', 'o', 's', 't'], &alias);
    assert(host_line@ =~= indent(lv[start as int]) + host_prefix() + entry@.alias);
    block.push(host_line);
    let mut j: usize = 0;
    while j < out.len()
        invariant
            j <= out.len(),
            seqs_view(block@) == seq![indent(lv[start as int]) + host_prefix() + entry@.alias]
                + seqs_view(out@).take(j as int),
        decreases out.len() - j,
    {
        let ghost b = block@;
        block.push(copy_chars(&out[j]));
        assert(seqs_view(block@) =~= seqs_view(b).push(out@[j as int]@));
        assert(seqs_view(out@).take(j + 1) =~= seqs_view(out@).take(j as int).push(out@[j as int]@));
        j += 1;
    }
    assert(seqs_view(out@).take(out.len() as int) =~= seqs_view(out@));
    let mut k: usize = 0;
    while k < 4
        invariant
            k <= 4,
            pending.len() == 4,
            pending_view(pending@) == st.pending,
            indent_used@ == (match st.indent {
                Some(i) => i,
                None => default_indent(),
            }),
            seqs_view(block@) == seq![indent(lv[start as int]) + host_prefix() + entry@.alias]
                + st.out + (if k == 0 {
                seq![]
            } else if k == 1 {
                pending_line(st.pending, 0, indent_used@)
            } else if k == 2 {
                pending_line(st.pending, 0, indent_used@) + pending_line(st.pending, 1, indent_used@)
            } else if k == 3 {
                pending_line(st.pending, 0, indent_used@) + pending_line(st.pending, 1, indent_used@)
                    + pending_line(st.pending, 2, indent_used@)
            } else {
                pending_lines(st.pending, indent_used@)
            }),
        decreases 4 - k,
    {
        let ghost b = block@;
        match &pending[k] {
            Some(v) => {
                let name = option_name(k);
                let text = option_text_chars(&indent_used, &name, v);
                block.push(text);
                assert(seqs_view(block@) =~= seqs_view(b).push(text@));
            },
            None => {},
        }
        k += 1;
    }
    block
}

/// Replace the block whose `Host` line names exactly `old_alias` by one for `entry`.
/// Only the `Host` line and the `HostName`, `User`, `Port` and `IdentityFile` lines
/// are rewritten; every other line of the block, and the rest of the file, is kept.
/// Fails when no `Host` line names `old_alias` alone.
pub fn update_in(content: &str, old_alias: &str, entry: &HostEntry) -> (r: Result<
    String,
    ConfigError,
>)
    ensures
        match updated_lines(lines(content@), old_alias@, entry@) {
            Some(ls) => r matches Ok(s) && s@ == unlines(ls),
            None => r matches Err(ConfigError::NoStandaloneBlock(a)) && a@ == old_alias@,
        },
{
    let cs = to_chars(content);
    let ls = split_lines(&cs);
    let alias = to_chars(old_alias);
    let ghost lv = seqs_view(ls@);
    match find_block(&ls, &alias) {
        None => Err(ConfigError::NoStandaloneBlock(string_of(&alias))),
        Some((start, end)) => {
            let mut out: Vec<Vec<char>> = Vec::new();
            for i in 0..start
                invariant
                    start < ls.len(),
                    lv == seqs_view(ls@),
                    seqs_view(out@) == lv.take(i as int),
            {
                let ghost b = out@;
                out.push(copy_chars(&ls[i]));
                assert(seqs_view(out@) =~= seqs_view(b).push(lv[i as int]));
                assert(lv.take(i + 1) =~= lv.take(i as int).push(lv[i as int]));
            }
            let block = rewrite_block(&ls, start, end, entry);
            let ghost with_block = seqs_view(out@) + seqs_view(block@);
            for i in 0..block.len()
                invariant
                    seqs_view(out@) == lv.take(start as int) + seqs_view(block@).take(i as int),
            {
                let ghost b = out@;
                out.push(copy_chars(&block[i]));
                assert(seqs_view(out@) =~= seqs_view(b).push(block@[i as int]@));
                assert(seqs_view(block@).take(i + 1) =~= seqs_view(block@).take(i as int).push(
                    block@[i as int]@,
                ));
            }
            assert(seqs_view(block@).take(block.len() as int) =~= seqs_view(block@));
            let ghost mid = seqs_view(out@);
            for i in end..ls.len()
                invariant
                    end <= ls.len(),
                    lv == seqs_view(ls@),
                    seqs_view(out@) == mid + lv.subrange(end as int, i as int),
            {
                let ghost b = out@;
                out.push(copy_chars(&ls[i]));
                assert(seqs_view(out@) =~= seqs_view(b).push(lv[i as int]));
                assert(lv.subrange(end as int, i + 1) =~= lv.subrange(end as int, i as int).push(
                    lv[i as int],
                ));
            }
            assert(lv.subrange(end as int, ls.len() as int) =~= lv.skip(end as int));
            Ok(join_lines(&out))
        },
    }
}

// ---------------------------------------------------------------------------
// Removing a block
// ---------------------------------------------------------------------------

/// The lines of a config text without the block of `alias`: the blank lines right
/// after the block go with it, and blank lines left at the end of the text are dropped.
pub open spec fn removed_lines(ls: Seq<Seq<char>>, alias: Seq<char>) -> Option<Seq<Seq<char>>> {
    match block_of(ls, alias) {
        Some((s, e)) => {
            let e2 = e + prefix_len(ls.skip(e), blank()) as int;
            let kept = ls.take(s) + ls.skip(e2);
            Some(kept.take(kept.len() - suffix_len(kept, blank()) as int))
        },
        None => None,
    }
}

/// Remove the block whose `Host` line names exactly `alias`, leaving surrounding
/// blocks, `Match` blocks and comments as they are. Fails when no `Host` line names
/// `alias` alone.
pub fn remove_in(content: &str, alias: &str) -> (r: Result<String, ConfigError>)
    ensures
        match removed_lines(lines(content@), alias@) {
            Some(ls) => r matches Ok(s) && s@ == unlines(ls),
            None => r matches Err(ConfigError::NoStandaloneBlock(a)) && a@ == alias@,
        },
{
    let cs = to_chars(content);
    let ls = split_lines(&cs);
    let target = to_chars(alias);
    let ghost lv = seqs_view(ls@);
    match find_block(&ls, &target) {
        None => Err(ConfigError::NoStandaloneBlock(string_of(&target))),
        Some((start, end)) => {
            let mut e = end;
            while e < ls.len() && chars_blank(&ls[e])
                invariant
                    end <= e <= ls.len(),
                    lv == seqs_view(ls@),
                    forall|k: int| end <= k < e ==> is_blank(#[trigger] lv[k]),
                decreases ls.len() - e,
            {
                e += 1;
            }
            proof {
                let t = lv.skip(end as int);
                assert forall|k: int| 0 <= k < e - end implies (blank())(#[trigger] t[k]) by {
                    assert(t[k] == lv[end + k]);
                }
                if e < ls.len() {
                    assert(t[e - end] == lv[e as int]);
                }
                lemma_prefix_len(t, blank(), e - end);
            }
            let mut out: Vec<Vec<char>> = Vec::new();
            for i in 0..start
                invariant
                    start < ls.len(),
                    lv == seqs_view(ls@),
                    seqs_view(out@) == lv.take(i as int),
            {
                let ghost b = out@;
                out.push(copy_chars(&ls[i]));
                assert(seqs_view(out@) =~= seqs_view(b).push(lv[i as int]));
                assert(lv.take(i + 1) =~= lv.take(i as int).push(lv[i as int]));
            }
            let ghost mid = seqs_view(out@);
            for i in e..ls.len()
                invariant
                    e <= ls.len(),
                    lv == seqs_view(ls@),
                    seqs_view(out@) == mid + lv.subrange(e as int, i as int),
            {
                let ghost b = out@;
                out.push(copy_chars(&ls[i]));
                assert(seqs_view(out@) =~= seqs_view(b).push(lv[i as int]));
                assert(lv.subrange(e as int, i + 1) =~= lv.subrange(e as int, i as int).push(
                    lv[i as int],
                ));
            }
            assert(lv.subrange(e as int, ls.len() as int) =~= lv.skip(e as int));
            let ghost kept = seqs_view(out@);
            let ghost n = out.len();
            while out.len() > 0 && chars_blank(&out[out.len() - 1])
                invariant
                    out.len() <= n == kept.len(),
                    seqs_view(out@) == kept.take(out.len() as int),
                    forall|k: int| out.len() <= k < n ==> is_blank(#[trigger] kept[k]),
                decreases out.len(),
            {
                assert(seqs_view(out@)[out.len() - 1] == out@[out.len() - 1]@);
                assert(kept.take(out.len() as int)[out.len() - 1] == kept[out.len() - 1]);
                out.pop();
                assert(seqs_view(out@) =~= kept.take(out.len() as int));
            }
            proof {
                if out.len() > 0 {
                    assert(seqs_view(out@)[out.len() - 1] == out@[out.len() - 1]@);
                    assert(kept.take(out.len() as int)[out.len() - 1] == kept[out.len() - 1]);
                }
                lemma_suffix_len(kept, blank(), n - out.len());
            }
            Ok(join_lines(&out))
        },
    }
}

} // verus!
