//! Properties that hold across the library's operations.

use vstd::prelude::*;
use crate::host::{bare_host, HostView};
use crate::number::{
    decimal_string, is_digit, lemma_decimal_string, lemma_parse_decimal_string, parse_u16,
};
use crate::parse::{
    hosts_for, is_pattern, key_char, keyword_of, kw_host, kw_hostname, kw_identityfile, kw_port,
    kw_user, option_value, parsed, run, run_from, set_hostname, set_identity_file, set_port,
    set_user, start_state, step, ParseState,
};
use crate::render::{
    default_indent, host_prefix, name_host, name_hostname, name_identity_file, name_port, name_user,
    option_line, option_text, port_value, rendered, separator,
};
use crate::text::{
    has_ws, is_blank, is_quote, is_ws, lemma_prefix_len, lemma_prefix_len_facts, lemma_suffix_len,
    lines, lower, non_ws, not_newline, prefix_len, strip_cr, suffix_len, trim_end, trim_quotes,
    trim_start, words, ws,
};

verus! {

// ---------------------------------------------------------------------------
// Parsed aliases are host names
// ---------------------------------------------------------------------------

/// A usable host name: non-empty, without whitespace, and not a pattern.
pub open spec fn is_host_name(a: Seq<char>) -> bool {
    a.len() > 0 && !has_ws(a) && !is_pattern(a)
}

pub open spec fn all_host_names(hs: Seq<HostView>) -> bool {
    forall|i: int| 0 <= i < hs.len() ==> is_host_name(#[trigger] hs[i].alias)
}

/// Every word of a text is non-empty and holds no whitespace.
pub proof fn lemma_words_are_words(s: Seq<char>)
    ensures
        forall|i: int| 0 <= i < words(s).len() ==> (#[trigger] words(s)[i]).len() > 0 && !has_ws(
            words(s)[i],
        ),
    decreases s.len(),
{
    let t = trim_start(s);
    lemma_prefix_len_facts(s, ws());
    if t.len() > 0 {
        let k = prefix_len(t, non_ws());
        lemma_prefix_len_facts(t, non_ws());
        assert(t[0] == s[prefix_len(s, ws()) as int]);
        lemma_words_are_words(t.skip(k as int));
        let w = t.take(k as int);
        assert(words(s) == seq![w] + words(t.skip(k as int)));
        assert forall|i: int| 0 <= i < words(s).len() implies (#[trigger] words(s)[i]).len() > 0
            && !has_ws(words(s)[i]) by {
            if i == 0 {
                assert(words(s)[0] == w);
                assert forall|j: int| 0 <= j < w.len() implies !is_ws(#[trigger] w[j]) by {
                    assert(w[j] == t[j]);
                    assert((non_ws())(t[j]));
                }
            } else {
                assert(words(s)[i] == words(t.skip(k as int))[i - 1]);
            }
        }
    }
}

proof fn lemma_hosts_for_names(ws: Seq<Seq<char>>)
    requires
        forall|i: int| 0 <= i < ws.len() ==> (#[trigger] ws[i]).len() > 0 && !has_ws(ws[i]),
    ensures
        all_host_names(hosts_for(ws)),
    decreases ws.len(),
{
    if ws.len() > 0 {
        let init = ws.drop_last();
        assert forall|i: int| 0 <= i < init.len() implies (#[trigger] init[i]).len() > 0
            && !has_ws(init[i]) by {
            assert(init[i] == ws[i]);
        }
        lemma_hosts_for_names(init);
        assert(ws.last() == ws[ws.len() - 1]);
    }
}

proof fn lemma_step_names(st: ParseState, line: Seq<char>)
    requires
        all_host_names(st.hosts),
        all_host_names(st.current),
    ensures
        all_host_names(step(st, line).hosts),
        all_host_names(step(st, line).current),
{
    match keyword_of(line) {
        None => {},
        Some((key, rest)) => {
            let value = crate::parse::option_value(rest);
            lemma_words_are_words(value);
            lemma_hosts_for_names(words(value));
            let joined = st.hosts + st.current;
            assert forall|i: int| 0 <= i < joined.len() implies is_host_name(
                #[trigger] joined[i].alias,
            ) by {
                if i < st.hosts.len() {
                    assert(joined[i] == st.hosts[i]);
                } else {
                    assert(joined[i] == st.current[i - st.hosts.len()]);
                }
            }
            let c = st.current;
            assert(forall|i: int| 0 <= i < c.len() ==> #[trigger] set_hostname(c, value)[i].alias
                == c[i].alias);
            assert(forall|i: int| 0 <= i < c.len() ==> #[trigger] set_user(c, value)[i].alias
                == c[i].alias);
            assert(forall|i: int, p: u16| 0 <= i < c.len() ==> #[trigger] set_port(c, p)[i].alias
                == c[i].alias);
            assert(forall|i: int| 0 <= i < c.len() ==> #[trigger] set_identity_file(c, value)[i].alias
                == c[i].alias);
        },
    }
}

proof fn lemma_run_names(st: ParseState, ls: Seq<Seq<char>>)
    requires
        all_host_names(st.hosts),
        all_host_names(st.current),
    ensures
        all_host_names(run_from(st, ls).hosts),
        all_host_names(run_from(st, ls).current),
    decreases ls.len(),
{
    if ls.len() > 0 {
        lemma_run_names(st, ls.drop_last());
        lemma_step_names(run_from(st, ls.drop_last()), ls.last());
    }
}

/// Every entry that `parse` returns is named by a host name: a non-empty alias
/// without whitespace, never a pattern with `*` or `?` nor a negated `!` alias.
pub proof fn parsed_aliases_are_host_names(content: Seq<char>)
    ensures
        all_host_names(parsed(content)),
{
    lemma_run_names(start_state(), lines(content));
    let st = run(lines(content));
    let all = st.hosts + st.current;
    assert forall|i: int| 0 <= i < all.len() implies is_host_name(#[trigger] all[i].alias) by {
        if i < st.hosts.len() {
            assert(all[i] == st.hosts[i]);
        } else {
            assert(all[i] == st.current[i - st.hosts.len()]);
        }
    }
}

// ---------------------------------------------------------------------------
// Lines of concatenated text
// ---------------------------------------------------------------------------

/// Text that ends with a line ending splits into lines independently of what follows.
pub proof fn lemma_lines_append(a: Seq<char>, b: Seq<char>)
    requires
        a.len() == 0 || a.last() == '\n',
    ensures
        lines(a + b) == lines(a) + lines(b),
    decreases a.len(),
{
    if a.len() == 0 {
        assert(a + b =~= b);
        assert(lines(a) =~= Seq::<Seq<char>>::empty());
        assert(lines(a) + lines(b) =~= lines(b));
    } else {
        let n = prefix_len(a, not_newline());
        lemma_prefix_len_facts(a, not_newline());
        if n == a.len() {
            assert((not_newline())(a[a.len() - 1]));
        }
        assert(n < a.len());
        let ab = a + b;
        assert forall|k: int| 0 <= k < n implies (not_newline())(#[trigger] ab[k]) by {
            assert(ab[k] == a[k]);
            assert((not_newline())(a[k]));
        }
        assert(ab[n as int] == a[n as int]);
        lemma_prefix_len(ab, not_newline(), n as int);
        assert(ab.take(n as int) =~= a.take(n as int));
        assert(ab.skip(n + 1int) =~= a.skip(n + 1int) + b);
        let rest = a.skip(n + 1int);
        if rest.len() > 0 {
            assert(rest.last() == a.last());
        }
        lemma_lines_append(rest, b);
        assert(lines(ab) == seq![strip_cr(a.take(n as int))] + lines(rest + b));
        assert(lines(a) == seq![strip_cr(a.take(n as int))] + lines(rest));
        assert(lines(ab) =~= lines(a) + lines(b));
    }
}

/// A single line with its line ending.
pub proof fn lemma_lines_one(x: Seq<char>)
    requires
        !x.contains('\n'),
    ensures
        lines(x.push('\n')) == seq![strip_cr(x)],
{
    let y = x.push('\n');
    assert forall|k: int| 0 <= k < x.len() implies (not_newline())(#[trigger] y[k]) by {
        assert(y[k] == x[k]);
        if x[k] == '\n' {
            assert(x.contains('\n'));
        }
    }
    lemma_prefix_len(y, not_newline(), x.len() as int);
    assert(y.take(x.len() as int) =~= x);
    assert(y.skip(x.len() + 1int) =~= Seq::<char>::empty());
    assert(lines(Seq::<char>::empty()) =~= Seq::<Seq<char>>::empty());
    assert(lines(y) =~= seq![strip_cr(x)]);
}

/// Reading `a + b` is reading `a`, then `b`.
pub proof fn lemma_run_from_append(st: ParseState, a: Seq<Seq<char>>, b: Seq<Seq<char>>)
    ensures
        run_from(st, a + b) == run_from(run_from(st, a), b),
    decreases b.len(),
{
    if b.len() == 0 {
        assert(a + b =~= a);
    } else {
        assert((a + b).drop_last() =~= a + b.drop_last());
        assert((a + b).last() == b.last());
        lemma_run_from_append(st, a, b.drop_last());
    }
}

pub proof fn lemma_run_from_one(st: ParseState, l: Seq<char>)
    ensures
        run_from(st, seq![l]) == step(st, l),
{
    assert(seq![l].drop_last() =~= Seq::<Seq<char>>::empty());
    assert(run_from(st, seq![l].drop_last()) == st);
    assert(seq![l].last() == l);
}

// ---------------------------------------------------------------------------
// Option lines
// ---------------------------------------------------------------------------

/// A value that an option line carries unchanged: on one line, and not starting with
/// whitespace, `=` or a double quote, nor ending with whitespace or a double quote.
pub open spec fn plain_value(v: Seq<char>) -> bool {
    &&& !v.contains('\n')
    &&& v.len() > 0 ==> {
        &&& !is_ws(v[0])
        &&& v[0] != '='
        &&& v[0] != '"'
        &&& !is_ws(v.last())
        &&& v.last() != '"'
    }
}

pub open spec fn plain_opt(o: Option<Seq<char>>) -> bool {
    match o {
        Some(v) => plain_value(v),
        None => true,
    }
}

/// An entry that its `Host` block describes exactly: a host name as alias, and values
/// that the option lines carry unchanged.
pub open spec fn writable(e: HostView) -> bool {
    &&& is_host_name(e.alias)
    &&& plain_value(e.alias)
    &&& plain_opt(e.hostname)
    &&& plain_opt(e.user)
    &&& plain_opt(e.identity_file)
}

/// How an indented `Name value` line splits into keyword and rest.
pub proof fn lemma_keyword_of_option(ind: Seq<char>, name: Seq<char>, v: Seq<char>)
    requires
        is_blank(ind),
        name.len() > 0,
        name[0] != '#',
        forall|k: int| 0 <= k < name.len() ==> (key_char())(#[trigger] name[k]),
        v.len() == 0 || (!is_ws(v[0]) && v[0] != '='),
    ensures
        keyword_of(option_text(ind, name, v)) == Some((lower(name), v)),
{
    let line = option_text(ind, name, v);
    assert forall|k: int| 0 <= k < ind.len() implies (ws())(#[trigger] line[k]) by {
        assert(line[k] == ind[k]);
    }
    assert(line[ind.len() as int] == name[0]);
    assert((key_char())(name[0]));
    lemma_prefix_len(line, ws(), ind.len() as int);
    let t = trim_start(line);
    assert(t =~= name + seq![' '] + v);
    assert forall|k: int| 0 <= k < name.len() implies (key_char())(#[trigger] t[k]) by {
        assert(t[k] == name[k]);
    }
    assert(t[name.len() as int] == ' ');
    assert(is_ws(' '));
    lemma_prefix_len(t, key_char(), name.len() as int);
    let u = t.skip(name.len() as int);
    assert(u =~= seq![' '] + v);
    assert(u[0] == ' ');
    if v.len() > 0 {
        assert(u[1] == v[0]);
    }
    lemma_prefix_len(u, ws(), 1);
    assert(trim_start(u) =~= v);
    assert(t.take(name.len() as int) =~= name);
}

/// An unchanged value is its own option value.
pub proof fn lemma_option_value_plain(v: Seq<char>)
    requires
        plain_value(v),
    ensures
        option_value(v) == v,
{
    if v.len() > 0 {
        lemma_suffix_len(v, ws(), 0);
    } else {
        lemma_suffix_len(v, ws(), 0);
    }
    assert(trim_end(v) =~= v);
    lemma_prefix_len(v, is_quote(), 0);
    assert(v.skip(0) =~= v);
    lemma_suffix_len(v, is_quote(), 0);
    assert(trim_quotes(v) =~= v);
}

/// A host name is one word.
pub proof fn lemma_words_single(a: Seq<char>)
    requires
        a.len() > 0,
        !has_ws(a),
    ensures
        words(a) == seq![a],
{
    lemma_prefix_len(a, ws(), 0);
    assert(a.skip(0) =~= a);
    assert forall|k: int| 0 <= k < a.len() implies (non_ws())(#[trigger] a[k]) by {
        if is_ws(a[k]) {
            assert(has_ws(a));
        }
    }
    lemma_prefix_len(a, non_ws(), a.len() as int);
    assert(a.take(a.len() as int) =~= a);
    let e = a.skip(a.len() as int);
    assert(e =~= Seq::<char>::empty());
    lemma_prefix_len(e, ws(), 0);
    assert(e.skip(0) =~= e);
    assert(words(e) =~= Seq::<Seq<char>>::empty());
    assert(words(a) =~= seq![a]);
}

pub proof fn lemma_lower_names()
    ensures
        lower(name_host()) == kw_host(),
        lower(name_hostname()) == kw_hostname(),
        lower(name_user()) == kw_user(),
        lower(name_port()) == kw_port(),
        lower(name_identity_file()) == kw_identityfile(),
{
    assert(lower(name_host()) =~= kw_host());
    assert(lower(name_hostname()) =~= kw_hostname());
    assert(lower(name_user()) =~= kw_user());
    assert(lower(name_port()) =~= kw_port());
    assert(lower(name_identity_file()) =~= kw_identityfile());
}

// ---------------------------------------------------------------------------
// Reading back a written block
// ---------------------------------------------------------------------------

/// The line written for an option, or none when it is absent.
pub open spec fn line_of(name: Seq<char>, value: Option<Seq<char>>) -> Seq<Seq<char>> {
    match value {
        Some(v) => seq![option_text(default_indent(), name, v)],
        None => seq![],
    }
}

pub open spec fn ends_nl(s: Seq<char>) -> bool {
    s.len() > 0 && s.last() == '\n'
}

/// The entry with the options of `e` up to the `k`-th (in writing order) and none after.
pub open spec fn partial(e: HostView, k: int) -> HostView {
    HostView {
        alias: e.alias,
        hostname: if k >= 1 { e.hostname } else { None },
        user: if k >= 2 { e.user } else { None },
        port: if k >= 3 { e.port } else { None },
        identity_file: if k >= 4 { e.identity_file } else { None },
    }
}

pub proof fn lemma_decimal_plain(n: u16)
    ensures
        plain_value(decimal_string(n as nat)),
        parse_u16(decimal_string(n as nat)) == Some(n),
{
    crate::number::lemma_decimal_string(n as nat);
    lemma_parse_decimal_string(n);
    let d = decimal_string(n as nat);
    assert(is_digit(d[0]));
    assert(is_digit(d[d.len() - 1]));
    if d.contains('\n') {
        let k = choose|k: int| 0 <= k < d.len() && d[k] == '\n';
        assert(is_digit(d[k]));
    }
}

pub proof fn lemma_default_indent_blank()
    ensures
        is_blank(default_indent()),
{
    assert forall|k: int| 0 <= k < default_indent().len() implies is_ws(
        #[trigger] default_indent()[k],
    ) by {
        assert(default_indent()[k] == ' ');
    }
}

proof fn lemma_option_line_lines(name: Seq<char>, value: Option<Seq<char>>)
    requires
        plain_opt(value),
        !name.contains('\n'),
        name.len() > 0,
    ensures
        lines(option_line(name, value)) == line_of(name, value),
        option_line(name, value).len() == 0 || ends_nl(option_line(name, value)),
{
    match value {
        Some(v) => {
            let x = option_text(default_indent(), name, v);
            assert(option_line(name, value) =~= x.push('\n'));
            if x.contains('\n') {
                let k = choose|k: int| 0 <= k < x.len() && x[k] == '\n';
                if k < 4 {
                    assert(x[k] == ' ');
                } else if k < 4 + name.len() {
                    assert(x[k] == name[k - 4]);
                    assert(name.contains('\n'));
                } else if k == 4 + name.len() {
                    assert(x[k] == ' ');
                } else {
                    assert(x[k] == v[k - 5 - name.len()]);
                    assert(v.contains('\n'));
                }
            }
            lemma_lines_one(x);
            if v.len() > 0 {
                assert(x.last() == v.last());
                assert(is_ws('\r'));
            } else {
                assert(x.last() == ' ');
            }
            assert(strip_cr(x) == x);
        },
        None => {
            assert(option_line(name, value) =~= Seq::<char>::empty());
            assert(lines(Seq::<char>::empty()) =~= Seq::<Seq<char>>::empty());
        },
    }
}

proof fn lemma_append_ends(a: Seq<char>, b: Seq<char>)
    requires
        ends_nl(a),
        b.len() == 0 || ends_nl(b),
    ensures
        ends_nl(a + b),
{
    if b.len() == 0 {
        assert(a + b =~= a);
    } else {
        assert((a + b).last() == b.last());
    }
}

pub proof fn lemma_no_newline_names()
    ensures
        !name_hostname().contains('\n'),
        !name_user().contains('\n'),
        !name_port().contains('\n'),
        !name_identity_file().contains('\n'),
{
    assert forall|k: int| 0 <= k < name_hostname().len() implies name_hostname()[k] != '\n' by {}
    assert forall|k: int| 0 <= k < name_user().len() implies name_user()[k] != '\n' by {}
    assert forall|k: int| 0 <= k < name_port().len() implies name_port()[k] != '\n' by {}
    assert forall|k: int| 0 <= k < name_identity_file().len() implies name_identity_file()[k]
        != '\n' by {}
}

/// The lines of a written block.
pub proof fn lemma_lines_rendered(e: HostView)
    requires
        writable(e),
    ensures
        lines(rendered(e)) == seq![host_prefix() + e.alias] + line_of(name_hostname(), e.hostname)
            + line_of(name_user(), e.user) + line_of(name_port(), port_value(e.port)) + line_of(
            name_identity_file(),
            e.identity_file,
        ),
{
    lemma_no_newline_names();
    let hl = host_prefix() + e.alias;
    let h = hl.push('\n');
    assert(host_prefix() + e.alias + seq!['\n'] =~= h);
    if hl.contains('\n') {
        let k = choose|k: int| 0 <= k < hl.len() && hl[k] == '\n';
        if k < 5 {
            assert(hl[k] == host_prefix()[k]);
        } else {
            assert(hl[k] == e.alias[k - 5]);
            assert(is_ws('\n'));
            assert(has_ws(e.alias));
        }
    }
    lemma_lines_one(hl);
    assert(hl.last() == e.alias.last());
    assert(is_ws('\r'));
    if e.alias.last() == '\r' {
        assert(has_ws(e.alias));
    }
    assert(strip_cr(hl) == hl);
    match e.port {
        Some(p) => lemma_decimal_plain(p),
        None => {},
    }
    let o1 = option_line(name_hostname(), e.hostname);
    let o2 = option_line(name_user(), e.user);
    let o3 = option_line(name_port(), port_value(e.port));
    let o4 = option_line(name_identity_file(), e.identity_file);
    lemma_option_line_lines(name_hostname(), e.hostname);
    lemma_option_line_lines(name_user(), e.user);
    lemma_option_line_lines(name_port(), port_value(e.port));
    lemma_option_line_lines(name_identity_file(), e.identity_file);
    lemma_lines_append(h, o1);
    lemma_append_ends(h, o1);
    lemma_lines_append(h + o1, o2);
    lemma_append_ends(h + o1, o2);
    lemma_lines_append(h + o1 + o2, o3);
    lemma_append_ends(h + o1 + o2, o3);
    lemma_lines_append(h + o1 + o2 + o3, o4);
    assert(rendered(e) =~= h + o1 + o2 + o3 + o4);
}

pub proof fn lemma_kw_distinct()
    ensures
        kw_hostname() != kw_host(),
        kw_hostname() != crate::parse::kw_match(),
        kw_user() != kw_host(),
        kw_user() != crate::parse::kw_match(),
        kw_user() != kw_hostname(),
        kw_port() != kw_host(),
        kw_port() != crate::parse::kw_match(),
        kw_port() != kw_hostname(),
        kw_port() != kw_user(),
        kw_identityfile() != kw_host(),
        kw_identityfile() != crate::parse::kw_match(),
        kw_identityfile() != kw_hostname(),
        kw_identityfile() != kw_user(),
        kw_identityfile() != kw_port(),
{
    assert(kw_hostname().len() != kw_host().len());
    assert(kw_hostname().len() != crate::parse::kw_match().len());
    assert(kw_user()[0] != kw_host()[0]);
    assert(kw_user().len() != crate::parse::kw_match().len());
    assert(kw_user().len() != kw_hostname().len());
    assert(kw_port()[0] != kw_host()[0]);
    assert(kw_port().len() != crate::parse::kw_match().len());
    assert(kw_port().len() != kw_hostname().len());
    assert(kw_port()[0] != kw_user()[0]);
    assert(kw_identityfile().len() != kw_host().len());
    assert(kw_identityfile().len() != crate::parse::kw_match().len());
    assert(kw_identityfile().len() != kw_hostname().len());
    assert(kw_identityfile().len() != kw_user().len());
    assert(kw_identityfile().len() != kw_port().len());
}

pub proof fn lemma_names_are_keys()
    ensures
        forall|k: int| 0 <= k < name_host().len() ==> (key_char())(#[trigger] name_host()[k]),
        forall|k: int| 0 <= k < name_hostname().len() ==> (key_char())(#[trigger] name_hostname()[k]),
        forall|k: int| 0 <= k < name_user().len() ==> (key_char())(#[trigger] name_user()[k]),
        forall|k: int| 0 <= k < name_port().len() ==> (key_char())(#[trigger] name_port()[k]),
        forall|k: int| 0 <= k < name_identity_file().len() ==> (key_char())(
            #[trigger] name_identity_file()[k],
        ),
{
}

proof fn lemma_host_line(st: ParseState, a: Seq<char>)
    requires
        is_host_name(a),
        plain_value(a),
    ensures
        run_from(st, seq![host_prefix() + a]) == (ParseState {
            hosts: st.hosts + st.current,
            current: seq![bare_host(a)],
        }),
{
    let hl = host_prefix() + a;
    lemma_lower_names();
    lemma_names_are_keys();
    assert(hl =~= option_text(seq![], name_host(), a));
    assert(is_blank(Seq::<char>::empty()));
    lemma_keyword_of_option(seq![], name_host(), a);
    lemma_option_value_plain(a);
    lemma_words_single(a);
    let ws = seq![a];
    assert(ws.drop_last() =~= Seq::<Seq<char>>::empty());
    assert(hosts_for(ws.drop_last()) =~= Seq::<HostView>::empty());
    assert(ws.last() == a);
    assert(hosts_for(ws) =~= seq![bare_host(a)]);
    lemma_run_from_one(st, hl);
}

proof fn lemma_option_step(st: ParseState, name: Seq<char>, v: Seq<char>)
    requires
        plain_value(v),
        name == name_hostname() || name == name_user() || name == name_port() || name
            == name_identity_file(),
    ensures
        keyword_of(option_text(default_indent(), name, v)) == Some((lower(name), v)),
        option_value(v) == v,
        run_from(st, seq![option_text(default_indent(), name, v)]) == step(
            st,
            option_text(default_indent(), name, v),
        ),
{
    lemma_names_are_keys();
    lemma_default_indent_blank();
    lemma_keyword_of_option(default_indent(), name, v);
    lemma_option_value_plain(v);
    lemma_run_from_one(st, option_text(default_indent(), name, v));
}

proof fn lemma_hostname_lines(s: ParseState, e: HostView)
    requires
        plain_opt(e.hostname),
        s.current == seq![partial(e, 0)],
    ensures
        run_from(s, line_of(name_hostname(), e.hostname)) == (ParseState {
            hosts: s.hosts,
            current: seq![partial(e, 1)],
        }),
{
    match e.hostname {
        Some(v) => {
            lemma_option_step(s, name_hostname(), v);
            lemma_lower_names();
            lemma_kw_distinct();
            assert(set_hostname(s.current, v) =~= seq![partial(e, 1)]);
        },
        None => {
            assert(seq![partial(e, 0)] =~= seq![partial(e, 1)]);
        },
    }
}

proof fn lemma_user_lines(s: ParseState, e: HostView)
    requires
        plain_opt(e.user),
        s.current == seq![partial(e, 1)],
    ensures
        run_from(s, line_of(name_user(), e.user)) == (ParseState {
            hosts: s.hosts,
            current: seq![partial(e, 2)],
        }),
{
    match e.user {
        Some(v) => {
            lemma_option_step(s, name_user(), v);
            lemma_lower_names();
            lemma_kw_distinct();
            assert(set_user(s.current, v) =~= seq![partial(e, 2)]);
        },
        None => {
            assert(seq![partial(e, 1)] =~= seq![partial(e, 2)]);
        },
    }
}

proof fn lemma_port_lines(s: ParseState, e: HostView)
    requires
        s.current == seq![partial(e, 2)],
    ensures
        run_from(s, line_of(name_port(), port_value(e.port))) == (ParseState {
            hosts: s.hosts,
            current: seq![partial(e, 3)],
        }),
{
    match e.port {
        Some(p) => {
            let v = decimal_string(p as nat);
            lemma_decimal_plain(p);
            lemma_option_step(s, name_port(), v);
            lemma_lower_names();
            lemma_kw_distinct();
            assert(set_port(s.current, p) =~= seq![partial(e, 3)]);
        },
        None => {
            assert(seq![partial(e, 2)] =~= seq![partial(e, 3)]);
        },
    }
}

proof fn lemma_identity_lines(s: ParseState, e: HostView)
    requires
        plain_opt(e.identity_file),
        s.current == seq![partial(e, 3)],
    ensures
        run_from(s, line_of(name_identity_file(), e.identity_file)) == (ParseState {
            hosts: s.hosts,
            current: seq![partial(e, 4)],
        }),
{
    match e.identity_file {
        Some(v) => {
            lemma_option_step(s, name_identity_file(), v);
            lemma_lower_names();
            lemma_kw_distinct();
            assert(set_identity_file(s.current, v) =~= seq![partial(e, 4)]);
        },
        None => {
            assert(seq![partial(e, 3)] =~= seq![partial(e, 4)]);
        },
    }
}

/// Reading a written block closes the open block and leaves exactly the written entry open.
pub proof fn lemma_run_rendered(st: ParseState, e: HostView)
    requires
        writable(e),
    ensures
        run_from(st, lines(rendered(e))) == (ParseState {
            hosts: st.hosts + st.current,
            current: seq![e],
        }),
{
    lemma_lines_rendered(e);
    let hl = host_prefix() + e.alias;
    let l1 = line_of(name_hostname(), e.hostname);
    let l2 = line_of(name_user(), e.user);
    let l3 = line_of(name_port(), port_value(e.port));
    let l4 = line_of(name_identity_file(), e.identity_file);
    lemma_host_line(st, e.alias);
    assert(bare_host(e.alias) == partial(e, 0));
    let s1 = run_from(st, seq![hl]);
    lemma_hostname_lines(s1, e);
    let s2 = run_from(s1, l1);
    lemma_user_lines(s2, e);
    let s3 = run_from(s2, l2);
    lemma_port_lines(s3, e);
    let s4 = run_from(s3, l3);
    lemma_identity_lines(s4, e);
    lemma_run_from_append(st, seq![hl], l1);
    lemma_run_from_append(st, seq![hl] + l1, l2);
    lemma_run_from_append(st, seq![hl] + l1 + l2, l3);
    lemma_run_from_append(st, seq![hl] + l1 + l2 + l3, l4);
    assert(partial(e, 4) == e);
}

/// What `render_block` writes, `parse` reads back as exactly that entry, for every
/// entry whose alias is a host name and whose values an option line carries unchanged.
pub proof fn render_then_parse(e: HostView)
    requires
        writable(e),
    ensures
        parsed(rendered(e)) == seq![e],
{
    lemma_run_rendered(start_state(), e);
    assert(Seq::<HostView>::empty() + Seq::<HostView>::empty() + seq![e] =~= seq![e]);
}

// ---------------------------------------------------------------------------
// Trailing whitespace does not change how a line is read
// ---------------------------------------------------------------------------

proof fn lemma_trim_start_push_ws(x: Seq<char>, c: char)
    requires
        is_ws(c),
    ensures
        is_blank(x) ==> trim_start(x.push(c)).len() == 0 && trim_start(x).len() == 0,
        !is_blank(x) ==> trim_start(x.push(c)) == trim_start(x).push(c) && trim_start(x).len() > 0,
{
    let y = x.push(c);
    if is_blank(x) {
        assert forall|k: int| 0 <= k < y.len() implies (ws())(#[trigger] y[k]) by {
            if k < x.len() {
                assert(y[k] == x[k]);
            }
        }
        lemma_prefix_len(y, ws(), y.len() as int);
        assert forall|k: int| 0 <= k < x.len() implies (ws())(#[trigger] x[k]) by {}
        lemma_prefix_len(x, ws(), x.len() as int);
    } else {
        let p = prefix_len(x, ws());
        lemma_prefix_len_facts(x, ws());
        if p == x.len() {
            assert forall|k: int| 0 <= k < x.len() implies is_ws(#[trigger] x[k]) by {
                assert((ws())(x[k]));
            }
        }
        assert forall|k: int| 0 <= k < p implies (ws())(#[trigger] y[k]) by {
            assert(y[k] == x[k]);
            assert((ws())(x[k]));
        }
        assert(y[p as int] == x[p as int]);
        lemma_prefix_len(y, ws(), p as int);
        assert(y.skip(p as int) =~= x.skip(p as int).push(c));
    }
}

proof fn lemma_trim_end_push_ws(y: Seq<char>, c: char)
    requires
        is_ws(c),
    ensures
        trim_end(y.push(c)) == trim_end(y),
{
    let z = y.push(c);
    assert(z.drop_last() =~= y);
    assert(z.last() == c);
    assert(suffix_len(z, ws()) == 1 + suffix_len(y, ws()));
    crate::text::lemma_suffix_len_facts(y, ws());
    assert(trim_end(z) =~= trim_end(y));
}

/// Adding whitespace at the end of a line keeps its keyword, and keeps its rest up to
/// trailing whitespace.
proof fn lemma_keyword_push_ws(l: Seq<char>, c: char)
    requires
        is_ws(c),
    ensures
        keyword_of(l) is None <==> keyword_of(l.push(c)) is None,
        keyword_of(l) matches Some((k, r)) ==> keyword_of(l.push(c)) matches Some((k2, r2)) && k2
            == k && trim_end(r2) == trim_end(r),
{
    lemma_trim_start_push_ws(l, c);
    if !is_blank(l) {
        let t = trim_start(l);
        let t2 = trim_start(l.push(c));
        assert(t2 == t.push(c));
        assert(t2[0] == t[0]);
        if t[0] != '#' {
            let end = prefix_len(t, key_char());
            lemma_prefix_len_facts(t, key_char());
            assert forall|k: int| 0 <= k < end implies (key_char())(#[trigger] t2[k]) by {
                assert(t2[k] == t[k]);
                assert((key_char())(t[k]));
            }
            if end < t.len() {
                assert(t2[end as int] == t[end as int]);
            } else {
                assert(t2[end as int] == c);
            }
            lemma_prefix_len(t2, key_char(), end as int);
            assert(t2.take(end as int) =~= t.take(end as int));
            let u = t.skip(end as int);
            assert(t2.skip(end as int) =~= u.push(c));
            lemma_trim_start_push_ws(u, c);
            let r0 = trim_start(u);
            let r02 = trim_start(u.push(c));
            if is_blank(u) {
                assert(r0.len() == 0 && r02.len() == 0);
                assert(r0 =~= r02);
            } else {
                assert(r02 == r0.push(c));
                assert(r02[0] == r0[0]);
                if r0[0] == '=' {
                    let d = r0.drop_first();
                    assert(r02.drop_first() =~= d.push(c));
                    lemma_trim_start_push_ws(d, c);
                    if is_blank(d) {
                        assert(trim_start(d) =~= trim_start(d.push(c)));
                    } else {
                        lemma_trim_end_push_ws(trim_start(d), c);
                    }
                } else {
                    lemma_trim_end_push_ws(r0, c);
                }
            }
        }
    }
}

/// Whitespace at the end of a line does not change what the line does.
pub proof fn lemma_step_push_ws(st: ParseState, l: Seq<char>, c: char)
    requires
        is_ws(c),
    ensures
        step(st, l.push(c)) == step(st, l),
{
    lemma_keyword_push_ws(l, c);
}

// ---------------------------------------------------------------------------
// Appending a block to a config text
// ---------------------------------------------------------------------------

proof fn lemma_lines_no_newline(x: Seq<char>)
    requires
        x.len() > 0,
        !x.contains('\n'),
    ensures
        lines(x) == seq![x],
{
    assert forall|k: int| 0 <= k < x.len() implies (not_newline())(#[trigger] x[k]) by {
        if x[k] == '\n' {
            assert(x.contains('\n'));
        }
    }
    lemma_prefix_len(x, not_newline(), x.len() as int);
}

/// Ending the last line of a text with a line ending does not change how it is read.
proof fn lemma_run_close_last_line(e: Seq<char>)
    requires
        e.len() > 0,
        e.last() != '\n',
    ensures
        run(lines(e.push('\n'))) == run(lines(e)),
{
    let m = suffix_len(e, not_newline());
    crate::text::lemma_suffix_len_facts(e, not_newline());
    assert((not_newline())(e.last()));
    assert(m >= 1);
    let p = e.take(e.len() - m);
    let l = e.skip(e.len() - m);
    assert(e =~= p + l);
    assert(e.push('\n') =~= p + l.push('\n'));
    if p.len() > 0 {
        assert(p.last() == e[e.len() - 1 - m]);
    }
    if l.contains('\n') {
        let k = choose|k: int| 0 <= k < l.len() && l[k] == '\n';
        assert(l[k] == e[e.len() - m + k]);
        assert((not_newline())(e[e.len() - m + k]));
    }
    lemma_lines_append(p, l);
    lemma_lines_append(p, l.push('\n'));
    lemma_lines_no_newline(l);
    lemma_lines_one(l);
    lemma_run_from_append(start_state(), lines(p), seq![l]);
    lemma_run_from_append(start_state(), lines(p), seq![strip_cr(l)]);
    let st = run(lines(p));
    lemma_run_from_one(st, l);
    lemma_run_from_one(st, strip_cr(l));
    if l.last() == '\r' {
        assert(l =~= strip_cr(l).push('\r'));
        assert(is_ws('\r'));
        lemma_step_push_ws(st, strip_cr(l), '\r');
    }
}

proof fn lemma_blank_line_step(st: ParseState)
    ensures
        run_from(st, lines(seq!['\n'])) == st,
{
    let empty = Seq::<char>::empty();
    assert(seq!['\n'] =~= empty.push('\n'));
    lemma_lines_one(empty);
    lemma_run_from_one(st, strip_cr(empty));
    assert(strip_cr(empty) == empty);
    lemma_prefix_len(empty, ws(), 0);
    assert(trim_start(empty).len() == 0);
}

/// What `append_block` writes after a config text, `parse` reads back as the entries
/// of that text followed by exactly the new entry, for every entry whose alias is a
/// host name and whose values an option line carries unchanged.
pub proof fn append_then_parse(existing: Seq<char>, e: HostView)
    requires
        writable(e),
    ensures
        parsed(existing + separator(existing) + rendered(e)) == parsed(existing).push(e),
{
    let r = rendered(e);
    let sep = separator(existing);
    let all = existing + sep + r;
    let st = run(lines(existing));
    if existing.len() == 0 {
        assert(all =~= r);
        assert(lines(existing) =~= Seq::<Seq<char>>::empty());
        lemma_run_rendered(start_state(), e);
        assert(parsed(existing) =~= Seq::<HostView>::empty());
        assert(parsed(all) =~= parsed(existing).push(e));
    } else if existing.len() >= 2 && existing[existing.len() - 1] == '\n' && existing[existing.len()
        - 2] == '\n' {
        assert(all =~= existing + r);
        lemma_lines_append(existing, r);
        lemma_run_from_append(start_state(), lines(existing), lines(r));
        lemma_run_rendered(st, e);
        assert(parsed(all) =~= parsed(existing).push(e));
    } else if existing.last() == '\n' {
        let nl = seq!['\n'];
        assert(all =~= existing + (nl + r));
        lemma_lines_append(existing, nl + r);
        lemma_lines_append(nl, r);
        lemma_run_from_append(start_state(), lines(existing), lines(nl) + lines(r));
        lemma_run_from_append(st, lines(nl), lines(r));
        lemma_blank_line_step(st);
        lemma_run_rendered(st, e);
        assert(parsed(all) =~= parsed(existing).push(e));
    } else {
        let nl = seq!['\n'];
        let closed = existing.push('\n');
        assert(all =~= closed + (nl + r));
        lemma_lines_append(closed, nl + r);
        lemma_lines_append(nl, r);
        lemma_run_close_last_line(existing);
        lemma_run_from_append(start_state(), lines(closed), lines(nl) + lines(r));
        lemma_run_from_append(st, lines(nl), lines(r));
        lemma_blank_line_step(st);
        lemma_run_rendered(st, e);
        assert(parsed(all) =~= parsed(existing).push(e));
    }
}

} // verus!
