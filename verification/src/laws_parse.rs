//! How each kind of line read after a text changes the entries of that text.

use vstd::prelude::*;
use crate::host::{bare_host, HostView};
use crate::laws::{
    lemma_keyword_of_option, lemma_kw_distinct, lemma_lines_append, lemma_lines_one,
    lemma_lower_names, lemma_names_are_keys, lemma_option_value_plain, lemma_run_from_append,
    lemma_run_from_one, lemma_words_single, plain_value,
};
use crate::number::parse_u16;
use crate::parse::{
    hosts_for, key_char, keyword_of, kw_host, kw_hostname, kw_identityfile, kw_match, kw_port,
    kw_user, option_value, parsed, run, run_from, set_hostname, set_identity_file, set_port,
    set_user, start_state, step, ParseState,
};
use crate::render::{host_prefix, name_host, option_text};
use crate::text::{
    has_ws, is_blank, is_quote, is_ws, lemma_prefix_len, lemma_prefix_len_facts, lemma_suffix_len,
    lines, lower, lower_char, non_ws, prefix_len, strip_cr, trim_end, trim_start, words, ws,
};

verus! {

/// Text that is empty or ends with a line ending: what follows starts a new line.
pub open spec fn whole_lines(c: Seq<char>) -> bool {
    c.len() == 0 || c.last() == '\n'
}

/// The entries of the `Host` block still open at the end of `c`: the last ones read.
pub open spec fn open_count(c: Seq<char>) -> nat {
    run(lines(c)).current.len()
}

/// The state after the lines of `c` and then the line `l`.
pub open spec fn run_step_last(c: Seq<char>, l: Seq<char>) -> ParseState {
    crate::parse::step(run(lines(c)), l)
}

proof fn lemma_parsed_after(c: Seq<char>, l: Seq<char>)
    requires
        whole_lines(c),
        !l.contains('\n'),
    ensures
        run(lines(c + l.push('\n'))) == run_step_last(c, strip_cr(l)),
{
    lemma_lines_one(l);
    lemma_lines_append(c, l.push('\n'));
    lemma_run_from_append(crate::parse::start_state(), lines(c), seq![strip_cr(l)]);
    lemma_run_from_one(run(lines(c)), strip_cr(l));
}

/// A word whose lower-case form is one of the keywords is read as that keyword.
proof fn lemma_keyword_word(name: Seq<char>, kw: Seq<char>)
    requires
        lower(name) == kw,
        kw.len() > 0,
        forall|k: int| 0 <= k < kw.len() ==> 'a' <= #[trigger] kw[k] && kw[k] <= 'z',
    ensures
        name.len() > 0,
        name[0] != '#',
        forall|k: int| 0 <= k < name.len() ==> (key_char())(#[trigger] name[k]),
{
    assert(lower(name).len() == name.len());
    assert forall|k: int| 0 <= k < name.len() implies (key_char())(#[trigger] name[k]) by {
        assert(lower(name)[k] == lower_char(name[k]));
        assert('a' <= kw[k] && kw[k] <= 'z');
    }
    assert(lower(name)[0] == lower_char(name[0]));
    assert('a' <= kw[0] && kw[0] <= 'z');
}

/// Whether `name` is, in any letter case, one of the option keywords this library reads.
pub open spec fn is_option_name(name: Seq<char>) -> bool {
    let k = lower(name);
    k == kw_hostname() || k == kw_user() || k == kw_port() || k == kw_identityfile()
}

/// An option line (`HostName`, `User`, `Port` or `IdentityFile`, in any letter case, after
/// any indentation), read after any text, gives its value to every entry of the block
/// open at that point, replacing what an earlier line gave, and leaves the entries read
/// before that block, and every other option, as they were. A `Port` value that is not
/// a port number changes nothing.
pub proof fn option_line_sets_open_block(c: Seq<char>, ind: Seq<char>, name: Seq<char>, v: Seq<char>)
    requires
        whole_lines(c),
        is_blank(ind),
        !ind.contains('\n'),
        is_option_name(name),
        plain_value(v),
    ensures
        ({
            let before = parsed(c);
            let text = c + option_text(ind, name, v).push('\n');
            let after = parsed(text);
            let first = before.len() - open_count(c);
            let k = lower(name);
            &&& after.len() == before.len()
            &&& open_count(text) == open_count(c)
            &&& forall|i: int| 0 <= i < first ==> after[i] == before[i]
            &&& forall|i: int|
                first <= i < before.len() ==> {
                    &&& (#[trigger] after[i]).alias == before[i].alias
                    &&& after[i].hostname == if k == kw_hostname() {
                        Some(v)
                    } else {
                        before[i].hostname
                    }
                    &&& after[i].user == if k == kw_user() {
                        Some(v)
                    } else {
                        before[i].user
                    }
                    &&& after[i].port == if k == kw_port() && parse_u16(v) is Some {
                        parse_u16(v)
                    } else {
                        before[i].port
                    }
                    &&& after[i].identity_file == if k == kw_identityfile() {
                        Some(v)
                    } else {
                        before[i].identity_file
                    }
                }
        }),
{
    let k = lower(name);
    if k == kw_hostname() {
        lemma_keyword_word(name, kw_hostname());
    } else if k == kw_user() {
        lemma_keyword_word(name, kw_user());
    } else if k == kw_port() {
        lemma_keyword_word(name, kw_port());
    } else {
        lemma_keyword_word(name, kw_identityfile());
    }
    let l = option_text(ind, name, v);
    if l.contains('\n') {
        let j = choose|j: int| 0 <= j < l.len() && l[j] == '\n';
        if j < ind.len() {
            assert(l[j] == ind[j]);
            assert(ind.contains('\n'));
        } else if j < ind.len() + name.len() {
            assert(l[j] == name[j - ind.len()]);
            assert(is_ws('\n'));
            assert((key_char())(name[j - ind.len()]));
        } else if j == ind.len() + name.len() {
            assert(l[j] == ' ');
        } else {
            assert(l[j] == v[j - ind.len() - name.len() - 1]);
            assert(v.contains('\n'));
        }
    }
    if v.len() > 0 {
        assert(l.last() == v.last());
        assert(is_ws('\r'));
    } else {
        assert(l.last() == ' ');
    }
    assert(strip_cr(l) == l);
    lemma_parsed_after(c, l);
    lemma_keyword_of_option(ind, name, v);
    lemma_option_value_plain(v);
    lemma_kw_distinct();
    lemma_lower_names();
    assert(kw_host() != kw_hostname());
}

/// Whether no line of `d` is a `Host` line.
pub open spec fn no_host_line(d: Seq<char>) -> bool {
    forall|i: int|
        0 <= i < lines(d).len() ==> match #[trigger] keyword_of(lines(d)[i]) {
            Some((k, _)) => k != kw_host(),
            None => true,
        }
}

/// With no block open, lines other than `Host` lines change nothing.
proof fn lemma_closed_run(st: ParseState, ls: Seq<Seq<char>>)
    requires
        st.current.len() == 0,
        forall|i: int|
            0 <= i < ls.len() ==> match #[trigger] keyword_of(ls[i]) {
                Some((k, _)) => k != kw_host(),
                None => true,
            },
    ensures
        run_from(st, ls) == st,
    decreases ls.len(),
{
    if ls.len() > 0 {
        let init = ls.drop_last();
        assert forall|i: int| 0 <= i < init.len() implies match #[trigger] keyword_of(init[i]) {
            Some((k, _)) => k != kw_host(),
            None => true,
        } by {
            assert(init[i] == ls[i]);
        }
        lemma_closed_run(st, init);
        let l = ls.last();
        assert(keyword_of(ls[ls.len() - 1]) == keyword_of(l));
        assert(st.hosts + st.current =~= st.hosts);
        assert(set_hostname(st.current, seq![]).len() == 0);
        match keyword_of(l) {
            Some((k, rest)) => {
                let v = option_value(rest);
                assert(set_hostname(st.current, v) =~= st.current);
                assert(set_user(st.current, v) =~= st.current);
                assert(set_identity_file(st.current, v) =~= st.current);
                match parse_u16(v) {
                    Some(p) => {
                        assert(set_port(st.current, p) =~= st.current);
                    },
                    None => {},
                }
            },
            None => {},
        }
    }
}

/// A `Match` line (in any letter case), read after any text, closes the open block: the
/// lines after it, up to the next `Host` line, change no entry, whatever options they set.
pub proof fn match_line_closes_block(c: Seq<char>, name: Seq<char>, r: Seq<char>, d: Seq<char>)
    requires
        whole_lines(c),
        lower(name) == kw_match(),
        !r.contains('\n'),
        no_host_line(d),
    ensures
        parsed(c + (name + seq![' '] + r).push('\n') + d) == parsed(c),
{
    lemma_keyword_word(name, kw_match());
    let l = name + seq![' '] + r;
    if l.contains('\n') {
        let j = choose|j: int| 0 <= j < l.len() && l[j] == '\n';
        if j < name.len() {
            assert(l[j] == name[j]);
            assert(is_ws('\n'));
            assert((key_char())(name[j]));
        } else if j == name.len() {
            assert(l[j] == ' ');
        } else {
            assert(l[j] == r[j - name.len() - 1]);
            assert(r.contains('\n'));
        }
    }
    let sl = strip_cr(l);
    assert(sl.len() > name.len()) by {
        if r.len() == 0 {
            assert(l.last() == ' ');
        }
    }
    assert forall|k: int| 0 <= k <= name.len() implies #[trigger] sl[k] == l[k] by {}
    assert(sl.take(name.len() as int) =~= name);
    assert(sl[name.len() as int] == ' ');
    lemma_keyword_is(sl, name);
    lemma_parsed_after(c, l);
    let st0 = run(lines(c));
    let st1 = step(st0, sl);
    assert(kw_match() != kw_host());
    assert(st1 == ParseState { hosts: st0.hosts + st0.current, current: seq![] });
    let front = c + l.push('\n');
    assert(front.last() == '\n');
    lemma_lines_append(front, d);
    assert(c + l.push('\n') + d == front + d);
    lemma_run_from_append(start_state(), lines(front), lines(d));
    lemma_closed_run(st1, lines(d));
    assert(st1.hosts + st1.current =~= st1.hosts);
}

/// The keyword of a line that starts with a keyword word and then whitespace.
proof fn lemma_keyword_is(line: Seq<char>, name: Seq<char>)
    requires
        name.len() > 0,
        name[0] != '#',
        forall|k: int| 0 <= k < name.len() ==> (key_char())(#[trigger] name[k]),
        line.len() > name.len(),
        line.take(name.len() as int) == name,
        line[name.len() as int] == ' ',
    ensures
        keyword_of(line) matches Some((k, _)) && k == lower(name),
{
    assert(line[0] == name[0]);
    assert(!is_ws(line[0])) by {
        assert((key_char())(name[0]));
    }
    lemma_prefix_len(line, ws(), 0);
    assert(line.skip(0) =~= line);
    assert forall|k: int| 0 <= k < name.len() implies (key_char())(#[trigger] line[k]) by {
        assert(line[k] == line.take(name.len() as int)[k]);
    }
    assert(is_ws(' '));
    lemma_prefix_len(line, key_char(), name.len() as int);
}

/// Aliases written on one line, one space between each two.
pub open spec fn joined(aliases: Seq<Seq<char>>) -> Seq<char>
    decreases aliases.len(),
{
    if aliases.len() == 0 {
        seq![]
    } else if aliases.len() == 1 {
        aliases[0]
    } else {
        aliases[0] + seq![' '] + joined(aliases.drop_first())
    }
}

/// An alias that names a host: it holds no `*` and no `?` and does not start with `!`.
pub open spec fn names_a_host() -> spec_fn(Seq<char>) -> bool {
    |a: Seq<char>| !a.contains('*') && !a.contains('?') && !(a.len() > 0 && a[0] == '!')
}

/// Every alias is one word that an option line carries unchanged.
pub open spec fn plain_aliases(aliases: Seq<Seq<char>>) -> bool {
    forall|i: int|
        0 <= i < aliases.len() ==> {
            &&& (#[trigger] aliases[i]).len() > 0
            &&& !has_ws(aliases[i])
            &&& plain_value(aliases[i])
        }
}

proof fn lemma_words_space(s: Seq<char>)
    ensures
        words(seq![' '] + s) == words(s),
{
    let u = seq![' '] + s;
    assert(is_ws(' '));
    assert(u.drop_first() =~= s);
    assert(prefix_len(u, ws()) == 1 + prefix_len(s, ws()));
    lemma_prefix_len_facts(s, ws());
    assert(trim_start(u) =~= trim_start(s));
}

proof fn lemma_words_front(a: Seq<char>, s: Seq<char>)
    requires
        a.len() > 0,
        !has_ws(a),
    ensures
        words(a + seq![' '] + s) == seq![a] + words(s),
{
    let u = a + seq![' '] + s;
    assert(u[0] == a[0]);
    if is_ws(a[0]) {
        assert(has_ws(a));
    }
    lemma_prefix_len(u, ws(), 0);
    assert(u.skip(0) =~= u);
    assert forall|k: int| 0 <= k < a.len() implies (non_ws())(#[trigger] u[k]) by {
        assert(u[k] == a[k]);
        if is_ws(a[k]) {
            assert(has_ws(a));
        }
    }
    assert(u[a.len() as int] == ' ');
    assert(is_ws(' '));
    lemma_prefix_len(u, non_ws(), a.len() as int);
    assert(u.take(a.len() as int) =~= a);
    assert(u.skip(a.len() as int) =~= seq![' '] + s);
    lemma_words_space(s);
}

proof fn lemma_words_joined(aliases: Seq<Seq<char>>)
    requires
        aliases.len() > 0,
        plain_aliases(aliases),
    ensures
        words(joined(aliases)) == aliases,
        joined(aliases).len() > 0,
        joined(aliases)[0] == aliases[0][0],
        joined(aliases).last() == aliases.last().last(),
        !joined(aliases).contains('\n'),
    decreases aliases.len(),
{
    let a = aliases[0];
    if aliases.len() == 1 {
        lemma_words_single(a);
        assert(seq![a] =~= aliases);
    } else {
        let rest = aliases.drop_first();
        assert forall|i: int| 0 <= i < rest.len() implies {
            &&& (#[trigger] rest[i]).len() > 0
            &&& !has_ws(rest[i])
            &&& plain_value(rest[i])
        } by {
            assert(rest[i] == aliases[i + 1]);
        }
        lemma_words_joined(rest);
        lemma_words_front(a, joined(rest));
        assert(seq![a] + rest =~= aliases);
        let j = joined(aliases);
        assert(j == a + seq![' '] + joined(rest));
        assert(j[0] == a[0]);
        assert(j.last() == joined(rest).last());
        assert(rest.last() == aliases.last());
        if j.contains('\n') {
            let k = choose|k: int| 0 <= k < j.len() && j[k] == '\n';
            if k < a.len() {
                assert(j[k] == a[k]);
                assert(a.contains('\n'));
            } else if k == a.len() {
                assert(j[k] == ' ');
            } else {
                assert(j[k] == joined(rest)[k - a.len() - 1]);
            }
        }
    }
}

proof fn lemma_hosts_for_filter(aliases: Seq<Seq<char>>)
    ensures
        hosts_for(aliases) == aliases.filter(names_a_host()).map_values(
            |a: Seq<char>| bare_host(a),
        ),
    decreases aliases.len(),
{
    reveal(Seq::filter);
    if aliases.len() > 0 {
        lemma_hosts_for_filter(aliases.drop_last());
        let f = aliases.drop_last().filter(names_a_host());
        if (names_a_host())(aliases.last()) {
            assert(aliases.filter(names_a_host()) == f.push(aliases.last()));
            assert(f.push(aliases.last()).map_values(|a: Seq<char>| bare_host(a))
                =~= f.map_values(|a: Seq<char>| bare_host(a)).push(bare_host(aliases.last())));
        } else {
            assert(aliases.filter(names_a_host()) == f);
        }
    }
}

/// A `Host` line, read after any text, keeps every entry read so far as it was, options
/// included, and adds one entry with no options for each of its aliases that names a
/// host (holds no `*` and no `?` and does not start with `!`), in the order of the line.
/// Those new entries make up the block that the option lines after it fill in.
pub proof fn host_line_adds_each_alias(c: Seq<char>, aliases: Seq<Seq<char>>)
    requires
        whole_lines(c),
        aliases.len() > 0,
        plain_aliases(aliases),
    ensures
        ({
            let text = c + (host_prefix() + joined(aliases)).push('\n');
            let added = aliases.filter(names_a_host()).map_values(|a: Seq<char>| bare_host(a));
            &&& parsed(text) == parsed(c) + added
            &&& open_count(text) == added.len()
        }),
{
    let j = joined(aliases);
    lemma_words_joined(aliases);
    assert(plain_value(aliases[0]));
    assert(plain_value(aliases.last()));
    assert(aliases.last() == aliases[aliases.len() - 1]);
    assert(plain_value(j));
    let hl = host_prefix() + j;
    if hl.contains('\n') {
        let k = choose|k: int| 0 <= k < hl.len() && hl[k] == '\n';
        if k < 5 {
            assert(hl[k] == host_prefix()[k]);
        } else {
            assert(hl[k] == j[k - 5]);
        }
    }
    assert(hl.last() == j.last());
    assert(is_ws('\r'));
    assert(strip_cr(hl) == hl);
    lemma_parsed_after(c, hl);
    lemma_lower_names();
    lemma_names_are_keys();
    assert(hl =~= option_text(seq![], name_host(), j));
    assert(is_blank(Seq::<char>::empty()));
    lemma_keyword_of_option(seq![], name_host(), j);
    lemma_option_value_plain(j);
    lemma_hosts_for_filter(aliases);
}

/// The whitespace at the front of `w + x` is `w` when `x` starts with no whitespace.
proof fn lemma_trim_blank_front(w: Seq<char>, x: Seq<char>)
    requires
        is_blank(w),
        x.len() == 0 || !is_ws(x[0]),
    ensures
        trim_start(w + x) == x,
{
    let u = w + x;
    assert forall|k: int| 0 <= k < w.len() implies (ws())(#[trigger] u[k]) by {
        assert(u[k] == w[k]);
    }
    if x.len() > 0 {
        assert(u[w.len() as int] == x[0]);
    }
    lemma_prefix_len(u, ws(), w.len() as int);
    assert(u.skip(w.len() as int) =~= x);
}

/// How a line splits into keyword and value, whatever separates them: whitespace, an
/// `=`, or an `=` with whitespace on either side. The keyword is read in lower case, the
/// value is what follows the separator, and the indentation before the keyword does not
/// matter. Blank lines and comment lines (`#` first after the indentation) have none.
pub proof fn keyword_and_value(
    ind: Seq<char>,
    name: Seq<char>,
    w1: Seq<char>,
    eq: bool,
    w2: Seq<char>,
    v: Seq<char>,
)
    requires
        is_blank(ind),
        name.len() > 0,
        name[0] != '#',
        forall|k: int| 0 <= k < name.len() ==> (key_char())(#[trigger] name[k]),
        is_blank(w1),
        is_blank(w2),
        eq || w1.len() > 0,
        v.len() == 0 || (!is_ws(v[0]) && v[0] != '='),
    ensures
        keyword_of(ind + name + w1 + (if eq { seq!['='] } else { seq![] }) + w2 + v) == Some(
            (lower(name), v),
        ),
        keyword_of(ind + seq!['#'] + v) is None,
        keyword_of(ind) is None,
{
    let e: Seq<char> = if eq {
        seq!['=']
    } else {
        seq![]
    };
    let tail = w1 + e + w2 + v;
    let t = name + tail;
    assert(ind + name + w1 + e + w2 + v =~= ind + t);
    assert(t[0] == name[0]);
    assert((key_char())(name[0]));
    lemma_trim_blank_front(ind, t);
    assert forall|k: int| 0 <= k < name.len() implies (key_char())(#[trigger] t[k]) by {
        assert(t[k] == name[k]);
    }
    if w1.len() > 0 {
        assert(t[name.len() as int] == w1[0]);
        assert(is_ws(w1[0]));
    } else {
        assert(t[name.len() as int] == '=');
    }
    lemma_prefix_len(t, key_char(), name.len() as int);
    assert(t.skip(name.len() as int) =~= tail);
    assert(t.take(name.len() as int) =~= name);
    if eq {
        assert(tail =~= w1 + (seq!['='] + w2 + v));
        lemma_trim_blank_front(w1, seq!['='] + w2 + v);
        assert((seq!['='] + w2 + v).drop_first() =~= w2 + v);
        lemma_trim_blank_front(w2, v);
    } else {
        assert(tail =~= (w1 + w2) + v);
        assert forall|k: int| 0 <= k < (w1 + w2).len() implies is_ws(#[trigger] (w1 + w2)[k]) by {
            if k < w1.len() {
                assert((w1 + w2)[k] == w1[k]);
            } else {
                assert((w1 + w2)[k] == w2[k - w1.len()]);
            }
        }
        lemma_trim_blank_front(w1 + w2, v);
    }
    let c = seq!['#'] + v;
    assert(ind + seq!['#'] + v =~= ind + c);
    assert(c[0] == '#');
    lemma_trim_blank_front(ind, c);
    assert(ind =~= ind + Seq::<char>::empty());
    lemma_trim_blank_front(ind, Seq::<char>::empty());
}

/// The value of an option line is the text after the separator without the whitespace
/// at its end and without any run of double quotes around it.
pub proof fn value_loses_quotes_and_trailing_space(
    qa: Seq<char>,
    v: Seq<char>,
    qb: Seq<char>,
    tr: Seq<char>,
)
    requires
        forall|k: int| 0 <= k < qa.len() ==> #[trigger] qa[k] == '"',
        forall|k: int| 0 <= k < qb.len() ==> #[trigger] qb[k] == '"',
        is_blank(tr),
        v.len() > 0,
        v[0] != '"',
        v.last() != '"',
        !is_ws(v.last()),
    ensures
        option_value(qa + v + qb + tr) == v,
{
    let body = qa + v + qb;
    let s = body + tr;
    assert(qa + v + qb + tr == s);
    assert forall|k: int| s.len() - tr.len() <= k < s.len() implies (ws())(#[trigger] s[k]) by {
        assert(s[k] == tr[k - body.len()]);
    }
    let j = s.len() - 1 - tr.len();
    assert(s[j] == body.last());
    if qb.len() > 0 {
        assert(body.last() == qb.last());
        assert(qb[qb.len() - 1] == '"');
    } else {
        assert(body.last() == v.last());
    }
    lemma_suffix_len(s, ws(), tr.len() as int);
    assert(trim_end(s) =~= body);
    assert forall|k: int| 0 <= k < qa.len() implies (is_quote())(#[trigger] body[k]) by {
        assert(body[k] == qa[k]);
    }
    assert(body[qa.len() as int] == v[0]);
    lemma_prefix_len(body, is_quote(), qa.len() as int);
    let t = body.skip(qa.len() as int);
    assert(t =~= v + qb);
    assert forall|k: int| t.len() - qb.len() <= k < t.len() implies (is_quote())(#[trigger] t[k]) by {
        assert(t[k] == qb[k - v.len()]);
    }
    assert(t[t.len() - 1 - qb.len()] == v.last());
    lemma_suffix_len(t, is_quote(), qb.len() as int);
    assert(t.take(t.len() - qb.len()) =~= v);
}

} // verus!
