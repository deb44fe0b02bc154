//! What rewriting or removing a block does to the entries that `parse` reads.

use vstd::prelude::*;
use crate::edit::{
    blank, block_of, filler, indent, is_filler, is_header, is_target, new_block, new_values,
    not_header, not_target, option_names, pending_line, pending_lines, removed_lines, rewrite_run,
    rewrite_step, slot, trimmed_end, updated_lines, Rewrite,
};
use crate::host::{bare_host, HostView};
use crate::laws::{
    is_host_name, lemma_decimal_plain, lemma_default_indent_blank, lemma_keyword_of_option,
    lemma_kw_distinct, lemma_lines_append, lemma_lines_one, lemma_lower_names, lemma_names_are_keys,
    lemma_no_newline_names, lemma_option_value_plain, lemma_run_from_append, lemma_step_push_ws,
    lemma_words_single, plain_value, writable,
};
use crate::parse::{
    hosts_for, keyword_of, option_value, parsed, run, run_from, set_hostname, set_identity_file,
    set_port, set_user, start_state, step, ParseState,
};
use crate::render::{default_indent, host_prefix, name_host, option_text};
use crate::text::{
    has_ws, is_blank, is_quote, is_ws, lemma_prefix_len, lemma_prefix_len_facts, lemma_suffix_len,
    lemma_suffix_len_facts, lines, lower, non_ws, not_newline, prefix_len, strip_cr, suffix_len,
    trim, trim_end, trim_start, unlines, words, ws,
};

verus! {

/// All entries of a parse state, finished and open.
pub open spec fn flat(st: ParseState) -> Seq<HostView> {
    st.hosts + st.current
}

/// A state with `p` put before its finished entries.
pub open spec fn shifted(p: Seq<HostView>, st: ParseState) -> ParseState {
    ParseState { hosts: p + st.hosts, current: st.current }
}

pub open spec fn no_newline(l: Seq<char>) -> bool {
    !l.contains('\n')
}

/// No line that `lines` gives holds a line ending.
pub proof fn lemma_lines_no_newline(s: Seq<char>)
    ensures
        forall|i: int| 0 <= i < lines(s).len() ==> no_newline(#[trigger] lines(s)[i]),
    decreases s.len(),
{
    if s.len() > 0 {
        let n = prefix_len(s, not_newline());
        lemma_prefix_len_facts(s, not_newline());
        if n == s.len() {
            assert forall|i: int| 0 <= i < lines(s).len() implies no_newline(
                #[trigger] lines(s)[i],
            ) by {
                assert(lines(s)[i] == s);
                if s.contains('\n') {
                    let k = choose|k: int| 0 <= k < s.len() && s[k] == '\n';
                    assert((not_newline())(s[k]));
                }
            }
        } else {
            let first = strip_cr(s.take(n as int));
            lemma_lines_no_newline(s.skip(n + 1int));
            assert forall|i: int| 0 <= i < lines(s).len() implies no_newline(
                #[trigger] lines(s)[i],
            ) by {
                if i == 0 {
                    assert(lines(s)[0] == first);
                    if first.contains('\n') {
                        let k = choose|k: int| 0 <= k < first.len() && first[k] == '\n';
                        assert(first[k] == s[k]);
                        assert((not_newline())(s[k]));
                    }
                } else {
                    assert(lines(s)[i] == lines(s.skip(n + 1int))[i - 1]);
                }
            }
        }
    }
}

/// Joining lines and splitting them again gives the lines back, less a carriage
/// return at their end.
pub proof fn lemma_lines_unlines(ls: Seq<Seq<char>>)
    requires
        forall|i: int| 0 <= i < ls.len() ==> no_newline(#[trigger] ls[i]),
    ensures
        lines(unlines(ls)) == ls.map_values(|l: Seq<char>| strip_cr(l)),
    decreases ls.len(),
{
    if ls.len() == 0 {
        assert(lines(Seq::<char>::empty()) =~= Seq::<Seq<char>>::empty());
        assert(ls.map_values(|l: Seq<char>| strip_cr(l)) =~= Seq::<Seq<char>>::empty());
    } else {
        let init = ls.drop_last();
        assert forall|i: int| 0 <= i < init.len() implies no_newline(#[trigger] init[i]) by {
            assert(init[i] == ls[i]);
        }
        lemma_lines_unlines(init);
        let a = unlines(init);
        if init.len() > 0 {
            assert(a.last() == '\n');
        }
        let l = ls.last();
        assert(no_newline(ls[ls.len() - 1]));
        assert(unlines(ls) =~= a + l.push('\n'));
        lemma_lines_append(a, l.push('\n'));
        lemma_lines_one(l);
        assert(ls.map_values(|l: Seq<char>| strip_cr(l)) =~= init.map_values(
            |l: Seq<char>| strip_cr(l),
        ).push(strip_cr(l)));
    }
}

/// A carriage return at the end of a line does not change what the line does.
pub proof fn lemma_run_strip_cr(st: ParseState, ls: Seq<Seq<char>>)
    ensures
        run_from(st, ls.map_values(|l: Seq<char>| strip_cr(l))) == run_from(st, ls),
    decreases ls.len(),
{
    if ls.len() > 0 {
        let m = ls.map_values(|l: Seq<char>| strip_cr(l));
        assert(m.drop_last() =~= ls.drop_last().map_values(|l: Seq<char>| strip_cr(l)));
        lemma_run_strip_cr(st, ls.drop_last());
        let l = ls.last();
        assert(m.last() == strip_cr(l));
        if l.len() > 0 && l.last() == '\r' {
            assert(l =~= strip_cr(l).push('\r'));
            assert(is_ws('\r'));
            lemma_step_push_ws(run_from(st, ls.drop_last()), strip_cr(l), '\r');
        }
    }
}

/// Finished entries put before the state stay before it.
pub proof fn lemma_run_shift(p: Seq<HostView>, st: ParseState, ls: Seq<Seq<char>>)
    ensures
        run_from(shifted(p, st), ls) == shifted(p, run_from(st, ls)),
    decreases ls.len(),
{
    if ls.len() == 0 {
    } else {
        lemma_run_shift(p, st, ls.drop_last());
        let a = run_from(st, ls.drop_last());
        assert((p + a.hosts) + a.current =~= p + (a.hosts + a.current));
        assert(step(shifted(p, a), ls.last()) =~= shifted(p, step(a, ls.last())));
    }
}

/// Lines without a keyword change nothing.
pub proof fn lemma_run_inert(st: ParseState, ls: Seq<Seq<char>>)
    requires
        forall|i: int| 0 <= i < ls.len() ==> keyword_of(#[trigger] ls[i]) is None,
    ensures
        run_from(st, ls) == st,
    decreases ls.len(),
{
    if ls.len() > 0 {
        assert(keyword_of(ls[ls.len() - 1]) is None);
        lemma_run_inert(st, ls.drop_last());
    }
}

/// Blank and comment lines have no keyword.
pub proof fn lemma_filler_inert(l: Seq<char>)
    requires
        is_filler(l) || is_blank(l),
    ensures
        keyword_of(l) is None,
{
    let t = trim_start(l);
    lemma_prefix_len_facts(l, ws());
    if t.len() > 0 {
        assert(t[0] == l[prefix_len(l, ws()) as int]);
        assert(!is_ws(t[0]));
        crate::text::lemma_suffix_len_facts(t, ws());
        if crate::text::suffix_len(t, ws()) == t.len() {
            assert((ws())(t[0]));
        }
        assert(trim(l) == trim_end(t));
        assert(trim_end(t)[0] == t[0]);
        if is_blank(l) {
            assert(is_ws(l[prefix_len(l, ws()) as int]));
        }
    }
}

/// Lines that start no block keep the finished entries and the number of open ones.
pub proof fn lemma_run_non_header(st: ParseState, ls: Seq<Seq<char>>)
    requires
        forall|i: int| 0 <= i < ls.len() ==> !is_header(#[trigger] ls[i]),
    ensures
        run_from(st, ls).hosts == st.hosts,
        run_from(st, ls).current.len() == st.current.len(),
    decreases ls.len(),
{
    if ls.len() > 0 {
        assert(!is_header(ls[ls.len() - 1]));
        lemma_run_non_header(st, ls.drop_last());
    }
}

/// From a block boundary on (a `Host` or `Match` line, or the end of the text), what
/// was read before only stands in front of what is read after.
pub proof fn lemma_run_from_boundary(st: ParseState, ls: Seq<Seq<char>>)
    requires
        ls.len() == 0 || is_header(ls[0]),
    ensures
        flat(run_from(st, ls)) == flat(st) + flat(run(ls)),
{
    if ls.len() == 0 {
        assert(flat(start_state()) =~= Seq::<HostView>::empty());
        assert(flat(st) + flat(run(ls)) =~= flat(st));
    } else {
        let hdr = ls[0];
        let rest = ls.skip(1);
        assert(ls =~= seq![hdr] + rest);
        lemma_run_from_append(st, seq![hdr], rest);
        lemma_run_from_append(start_state(), seq![hdr], rest);
        crate::laws::lemma_run_from_one(st, hdr);
        crate::laws::lemma_run_from_one(start_state(), hdr);
        let a = step(st, hdr);
        let b = step(start_state(), hdr);
        assert(run_from(st, ls) == run_from(a, rest));
        assert(run(ls) == run_from(b, rest));
        assert(Seq::<HostView>::empty() + Seq::<HostView>::empty() =~= Seq::<HostView>::empty());
        assert(flat(st) + (Seq::<HostView>::empty() + Seq::<HostView>::empty()) =~= flat(st));
        assert(a.hosts == shifted(flat(st), b).hosts);
        assert(a.current == shifted(flat(st), b).current);
        assert(a == shifted(flat(st), b));
        lemma_run_shift(flat(st), b, rest);
        let r = run_from(b, rest);
        assert(flat(shifted(flat(st), r)) =~= flat(st) + flat(r));
    }
}

// ---------------------------------------------------------------------------
// A `Host` line that names one alias yields at most one entry
// ---------------------------------------------------------------------------

/// `s` is some whitespace followed by text without whitespace, split at `j`.
pub open spec fn is_split(s: Seq<char>, j: int) -> bool {
    0 <= j <= s.len() && is_blank(s.take(j)) && !has_ws(s.skip(j))
}

proof fn lemma_words_of_split(s: Seq<char>, j: int)
    requires
        is_split(s, j),
    ensures
        words(s).len() <= 1,
{
    assert forall|k: int| 0 <= k < j implies (ws())(#[trigger] s[k]) by {
        assert(s[k] == s.take(j)[k]);
    }
    let v = s.skip(j);
    if j < s.len() {
        assert(s[j] == v[0]);
        if is_ws(v[0]) {
            assert(has_ws(v));
        }
    }
    lemma_prefix_len(s, ws(), j);
    let t = trim_start(s);
    assert(t =~= v);
    if t.len() > 0 {
        assert forall|k: int| 0 <= k < t.len() implies (non_ws())(#[trigger] t[k]) by {
            if is_ws(t[k]) {
                assert(has_ws(v));
            }
        }
        lemma_prefix_len(t, non_ws(), t.len() as int);
        let e = t.skip(t.len() as int);
        assert(e =~= Seq::<char>::empty());
        lemma_prefix_len(e, ws(), 0);
        assert(e.skip(0) =~= e);
        assert(words(e) =~= Seq::<Seq<char>>::empty());
    }
}

proof fn lemma_split_take(s: Seq<char>, j: int, n: int)
    requires
        is_split(s, j),
        0 <= n <= s.len(),
    ensures
        is_split(s.take(n), if n < j {
            n
        } else {
            j
        }),
{
    let m = if n < j {
        n
    } else {
        j
    };
    let x = s.take(n);
    assert forall|k: int| 0 <= k < m implies is_ws(#[trigger] x.take(m)[k]) by {
        assert(x.take(m)[k] == s.take(j)[k]);
    }
    if has_ws(x.skip(m)) {
        let k = choose|k: int| 0 <= k < x.skip(m).len() && is_ws(#[trigger] x.skip(m)[k]);
        assert(x.skip(m)[k] == s.skip(j)[k]);
        assert(has_ws(s.skip(j)));
    }
}

proof fn lemma_words_blank(x: Seq<char>)
    requires
        words(x).len() == 0,
    ensures
        is_blank(x),
{
    lemma_prefix_len_facts(x, ws());
    assert forall|k: int| 0 <= k < x.len() implies is_ws(#[trigger] x[k]) by {
        assert((ws())(x[k]));
    }
}

/// The rest of a `Host` line that names exactly one alias reads as at most one alias.
proof fn lemma_one_word_value(rest: Seq<char>, a: Seq<char>)
    requires
        words(rest) == seq![a],
    ensures
        words(option_value(rest)).len() <= 1,
{
    let p = prefix_len(rest, ws());
    lemma_prefix_len_facts(rest, ws());
    let t = trim_start(rest);
    assert(t.len() > 0) by {
        if t.len() == 0 {
            assert(words(rest).len() == 0);
        }
    }
    let k = prefix_len(t, non_ws());
    lemma_prefix_len_facts(t, non_ws());
    assert(t[0] == rest[p as int]);
    assert(words(rest) == seq![t.take(k as int)] + words(t.skip(k as int)));
    assert(seq![a].len() == 1);
    assert((seq![t.take(k as int)] + words(t.skip(k as int))).len() == 1 + words(
        t.skip(k as int),
    ).len());
    assert(words(t.skip(k as int)).len() == 0);
    lemma_words_blank(t.skip(k as int));
    let j: int = (p + k) as int;
    // rest is: blank up to p, a word up to j, blank after
    assert forall|i: int| j <= i < rest.len() implies (ws())(#[trigger] rest[i]) by {
        assert(rest[i] == t.skip(k as int)[i - j]);
    }
    assert(rest[j - 1] == t[k - 1]);
    assert((non_ws())(t[k - 1]));
    lemma_suffix_len(rest, ws(), rest.len() - j);
    let y = trim_end(rest);
    assert(y =~= rest.take(j));
    assert forall|i: int| 0 <= i < p implies is_ws(#[trigger] y.take(p as int)[i]) by {
        assert(y.take(p as int)[i] == rest[i]);
        assert((ws())(rest[i]));
    }
    assert forall|i: int| 0 <= i < y.skip(p as int).len() implies !is_ws(#[trigger] y.skip(p as int)[i]) by {
        assert(y.skip(p as int)[i] == t[i]);
        assert((non_ws())(t[i]));
    }
    assert(is_split(y, p as int));
    // dropping quotes keeps the shape
    let q1 = prefix_len(y, is_quote());
    lemma_prefix_len_facts(y, is_quote());
    let y1 = y.skip(q1 as int);
    let j1: int = if q1 == 0 {
        p as int
    } else {
        0
    };
    if q1 > 0 {
        if p > 0 {
            assert(is_ws(y[0]) && (is_quote())(y[0]));
        }
        assert(y1.take(0) =~= Seq::<char>::empty());
        assert forall|i: int| 0 <= i < y1.skip(0).len() implies !is_ws(#[trigger] y1.skip(0)[i]) by {
            assert(y1.skip(0)[i] == y.skip(p as int)[q1 + i]);
        }
    } else {
        assert(y1 =~= y);
    }
    assert(is_split(y1, j1));
    let q2 = suffix_len(y1, is_quote());
    lemma_suffix_len_facts(y1, is_quote());
    lemma_split_take(y1, j1, y1.len() - q2);
    let y2 = y1.take(y1.len() - q2);
    assert(option_value(rest) == y2);
    lemma_words_of_split(y2, if y1.len() - q2 < j1 {
        y1.len() - q2
    } else {
        j1
    });
}

proof fn lemma_hosts_for_len(ws: Seq<Seq<char>>)
    ensures
        hosts_for(ws).len() <= ws.len(),
    decreases ws.len(),
{
    if ws.len() > 0 {
        lemma_hosts_for_len(ws.drop_last());
    }
}

/// The `Host` line of a located block yields at most one entry.
pub proof fn lemma_target_yields_one(st: ParseState, line: Seq<char>, alias: Seq<char>)
    requires
        is_target(line, alias),
    ensures
        step(st, line).current.len() <= 1,
{
    let (k, rest) = keyword_of(line)->0;
    lemma_one_word_value(rest, alias);
    lemma_hosts_for_len(words(option_value(rest)));
}

// ---------------------------------------------------------------------------
// The shape of a located block
// ---------------------------------------------------------------------------

/// The first line of the block of `alias`.
pub open spec fn block_start(ls: Seq<Seq<char>>, alias: Seq<char>) -> int {
    prefix_len(ls, not_target(alias)) as int
}

/// The next `Host` or `Match` line after the block of `alias`, or the end of the text.
pub open spec fn block_stop(ls: Seq<Seq<char>>, alias: Seq<char>) -> int {
    let s = block_start(ls, alias);
    s + 1 + prefix_len(ls.skip(s + 1), not_header()) as int
}

/// What `block_of` finds: the target `Host` line, then lines that start no block, the
/// last of which (from the block's end on) are blank or comments, then a block
/// boundary.
pub proof fn lemma_block_shape(ls: Seq<Seq<char>>, alias: Seq<char>)
    requires
        block_of(ls, alias) is Some,
    ensures
        ({
            let (s, t) = block_of(ls, alias)->0;
            let stop = block_stop(ls, alias);
            &&& s == block_start(ls, alias)
            &&& 0 <= s < t <= stop <= ls.len()
            &&& is_target(ls[s], alias)
            &&& forall|k: int| s < k < stop ==> !is_header(#[trigger] ls[k])
            &&& stop == ls.len() || is_header(ls[stop])
            &&& forall|k: int| t <= k < stop ==> is_filler(#[trigger] ls[k])
        }),
{
    let s = block_start(ls, alias);
    lemma_prefix_len_facts(ls, not_target(alias));
    assert(!(not_target(alias))(ls[s]));
    let rest = ls.skip(s + 1);
    lemma_prefix_len_facts(rest, not_header());
    let stop = block_stop(ls, alias);
    assert forall|k: int| s < k < stop implies !is_header(#[trigger] ls[k]) by {
        assert(ls[k] == rest[k - s - 1]);
        assert((not_header())(rest[k - s - 1]));
    }
    if stop < ls.len() {
        assert(ls[stop] == rest[stop - s - 1]);
    }
    let sub = ls.subrange(s + 1, stop);
    lemma_suffix_len_facts(sub, filler());
    let t = trimmed_end(ls, s, stop);
    assert forall|k: int| t <= k < stop implies is_filler(#[trigger] ls[k]) by {
        assert(ls[k] == sub[k - s - 1]);
        assert((filler())(sub[k - s - 1]));
    }
}

/// A block boundary is no blank line.
proof fn lemma_header_not_blank(l: Seq<char>)
    requires
        is_header(l),
    ensures
        !is_blank(l),
{
    if is_blank(l) {
        lemma_filler_inert(l);
    }
}

/// Reading the block of `alias` from its `Host` line to the next boundary: the entries
/// read before are closed, and the block's own entries stay open.
proof fn lemma_run_old_block(st: ParseState, ls: Seq<Seq<char>>, alias: Seq<char>)
    requires
        block_of(ls, alias) is Some,
    ensures
        ({
            let s = block_start(ls, alias);
            let stop = block_stop(ls, alias);
            let r = run_from(st, ls.subrange(s, stop));
            &&& r.hosts == flat(st)
            &&& r.current.len() == step(st, ls[s]).current.len()
        }),
{
    lemma_block_shape(ls, alias);
    let s = block_start(ls, alias);
    let stop = block_stop(ls, alias);
    let body = ls.subrange(s + 1, stop);
    assert(ls.subrange(s, stop) =~= seq![ls[s]] + body);
    lemma_run_from_append(st, seq![ls[s]], body);
    crate::laws::lemma_run_from_one(st, ls[s]);
    assert forall|i: int| 0 <= i < body.len() implies !is_header(#[trigger] body[i]) by {
        assert(body[i] == ls[s + 1 + i]);
    }
    lemma_run_non_header(step(st, ls[s]), body);
}

/// Removing the block of `alias` takes out exactly the entries that this block
/// yields (at most one) and leaves every other entry, in order.
pub proof fn remove_then_parse(content: Seq<char>, alias: Seq<char>)
    requires
        removed_lines(lines(content), alias) is Some,
    ensures
        exists|p: Seq<HostView>, x: Seq<HostView>, q: Seq<HostView>|
            {
                &&& x.len() <= 1
                &&& parsed(content) == p + x + q
                &&& parsed(unlines(removed_lines(lines(content), alias)->0)) == p + q
            },
{
    let ls = lines(content);
    lemma_block_shape(ls, alias);
    let (s, t) = block_of(ls, alias)->0;
    let stop = block_stop(ls, alias);
    let e2 = t + prefix_len(ls.skip(t), blank()) as int;
    lemma_prefix_len_facts(ls.skip(t), blank());
    // the blank lines after the block end before the next boundary
    if e2 > stop {
        assert(ls[stop] == ls.skip(t)[stop - t]);
        assert((blank())(ls.skip(t)[stop - t]));
        lemma_header_not_blank(ls[stop]);
    }
    assert(e2 <= stop);
    let kept = ls.take(s) + ls.skip(e2);
    let out = removed_lines(ls, alias)->0;
    let n = suffix_len(kept, blank());
    lemma_suffix_len_facts(kept, blank());
    assert(out == kept.take(kept.len() - n));
    let tail = kept.skip(kept.len() - n);
    assert(kept =~= out + tail);
    // the text of the result reads as its lines
    lemma_lines_no_newline(content);
    assert forall|i: int| 0 <= i < out.len() implies no_newline(#[trigger] out[i]) by {
        assert(out[i] == kept[i]);
        if i < s {
            assert(kept[i] == ls[i]);
        } else {
            assert(kept[i] == ls[e2 + i - s]);
        }
    }
    lemma_lines_unlines(out);
    lemma_run_strip_cr(start_state(), out);
    // the dropped blank lines at the end change nothing
    assert forall|i: int| 0 <= i < tail.len() implies keyword_of(#[trigger] tail[i]) is None by {
        assert(tail[i] == kept[kept.len() - n + i]);
        assert((blank())(kept[kept.len() - n + i]));
        lemma_filler_inert(tail[i]);
    }
    lemma_run_from_append(start_state(), out, tail);
    lemma_run_inert(run(out), tail);
    // reading what is kept
    let st0 = run(ls.take(s));
    let mid = ls.subrange(e2, stop);
    let after = ls.skip(stop);
    assert(ls.skip(e2) =~= mid + after);
    assert(kept =~= ls.take(s) + mid + after);
    lemma_run_from_append(start_state(), ls.take(s) + mid, after);
    lemma_run_from_append(start_state(), ls.take(s), mid);
    assert forall|i: int| 0 <= i < mid.len() implies keyword_of(#[trigger] mid[i]) is None by {
        assert(mid[i] == ls[e2 + i]);
        lemma_filler_inert(mid[i]);
    }
    lemma_run_inert(st0, mid);
    if after.len() > 0 {
        assert(after[0] == ls[stop]);
    }
    lemma_run_from_boundary(st0, after);
    // reading the text before the edit
    assert(ls =~= ls.take(s) + ls.subrange(s, stop) + after);
    lemma_run_from_append(start_state(), ls.take(s) + ls.subrange(s, stop), after);
    lemma_run_from_append(start_state(), ls.take(s), ls.subrange(s, stop));
    lemma_run_old_block(st0, ls, alias);
    lemma_target_yields_one(st0, ls[s], alias);
    let r = run_from(st0, ls.subrange(s, stop));
    lemma_run_from_boundary(r, after);
    let p = flat(st0);
    let x = r.current;
    let q = flat(run(after));
    assert(flat(r) == p + x);
    assert(parsed(content) =~= p + x + q);
    assert(parsed(unlines(out)) =~= p + q);
}

// ---------------------------------------------------------------------------
// Reading a rewritten block
// ---------------------------------------------------------------------------

/// Entry `e` with only the options whose new value has been written so far.
pub open spec fn written(e: HostView, pending: Seq<Option<Seq<char>>>) -> HostView {
    HostView {
        alias: e.alias,
        hostname: if pending[0] is None {
            e.hostname
        } else {
            None
        },
        user: if pending[1] is None {
            e.user
        } else {
            None
        },
        port: if pending[2] is None {
            e.port
        } else {
            None
        },
        identity_file: if pending[3] is None {
            e.identity_file
        } else {
            None
        },
    }
}

/// What the rewrite keeps true while it walks the body of a block.
pub open spec fn rewrite_inv(r: Rewrite, e: HostView, st: ParseState) -> bool {
    &&& r.pending.len() == 4
    &&& forall|k: int| 0 <= k < 4 && (#[trigger] r.pending[k]) is Some ==> r.pending[k] == new_values(e)[k]
    &&& r.indent matches Some(i) ==> is_blank(i) && no_newline(i)
    &&& forall|i: int| 0 <= i < r.out.len() ==> no_newline(#[trigger] r.out[i])
    &&& run_from(st, r.out) == (ParseState { hosts: st.hosts, current: seq![written(e, r.pending)] })
}

proof fn lemma_indent_blank(l: Seq<char>)
    requires
        no_newline(l),
    ensures
        is_blank(indent(l)),
        no_newline(indent(l)),
{
    lemma_prefix_len_facts(l, ws());
    let i = indent(l);
    assert forall|k: int| 0 <= k < i.len() implies is_ws(#[trigger] i[k]) by {
        assert(i[k] == l[k]);
        assert((ws())(l[k]));
    }
    if i.contains('\n') {
        let k = choose|k: int| 0 <= k < i.len() && i[k] == '\n';
        assert(i[k] == l[k]);
    }
}

/// The new value of an option is carried unchanged by its line.
proof fn lemma_new_value_plain(e: HostView, k: int, v: Seq<char>)
    requires
        writable(e),
        0 <= k < 4,
        new_values(e)[k] == Some(v),
    ensures
        plain_value(v),
{
    if k == 2 {
        lemma_decimal_plain(e.port->0);
    }
}

/// An option line written with a new value sets that option on the open entry.
proof fn lemma_written_line(st: ParseState, ind: Seq<char>, e: HostView, pending: Seq<Option<Seq<char>>>, k: int)
    requires
        writable(e),
        is_blank(ind),
        no_newline(ind),
        0 <= k < 4,
        pending.len() == 4,
        pending[k] is Some,
        pending[k] == new_values(e)[k],
        st.current == seq![written(e, pending)],
    ensures
        step(st, option_text(ind, option_names()[k], pending[k]->0)) == (ParseState {
            hosts: st.hosts,
            current: seq![written(e, pending.update(k, None))],
        }),
        no_newline(option_text(ind, option_names()[k], pending[k]->0)),
{
    let v = pending[k]->0;
    lemma_new_value_plain(e, k, v);
    lemma_names_are_keys();
    lemma_lower_names();
    lemma_kw_distinct();
    lemma_no_newline_names();
    let name = option_names()[k];
    lemma_keyword_of_option(ind, name, v);
    lemma_option_value_plain(v);
    let p2 = pending.update(k, None);
    if k == 0 {
        assert(set_hostname(st.current, v) =~= seq![written(e, p2)]);
    } else if k == 1 {
        assert(set_user(st.current, v) =~= seq![written(e, p2)]);
    } else if k == 2 {
        lemma_decimal_plain(e.port->0);
        assert(set_port(st.current, e.port->0) =~= seq![written(e, p2)]);
    } else {
        assert(set_identity_file(st.current, v) =~= seq![written(e, p2)]);
    }
    let line = option_text(ind, name, v);
    if line.contains('\n') {
        let i = choose|i: int| 0 <= i < line.len() && line[i] == '\n';
        if i < ind.len() {
            assert(line[i] == ind[i]);
        } else if i < ind.len() + name.len() {
            assert(line[i] == name[i - ind.len()]);
        } else if i == ind.len() + name.len() {
            assert(line[i] == ' ');
        } else {
            assert(line[i] == v[i - ind.len() - name.len() - 1]);
        }
    }
}

proof fn lemma_run_push(st: ParseState, ls: Seq<Seq<char>>, l: Seq<char>)
    ensures
        run_from(st, ls.push(l)) == step(run_from(st, ls), l),
{
    assert(ls.push(l).drop_last() =~= ls);
    assert(ls.push(l).last() == l);
}

/// Each body line keeps the rewrite's invariant.
proof fn lemma_rewrite_step(r: Rewrite, line: Seq<char>, e: HostView, st: ParseState)
    requires
        writable(e),
        rewrite_inv(r, e, st),
        !is_header(line),
        no_newline(line),
    ensures
        rewrite_inv(rewrite_step(r, line), e, st),
{
    let r2 = rewrite_step(r, line);
    let cur = run_from(st, r.out);
    match keyword_of(line) {
        None => {
            lemma_run_push(st, r.out, line);
        },
        Some((key, _rest)) => {
            lemma_indent_blank(line);
            let k = slot(key);
            if k >= 0 {
                match r.pending[k] {
                    Some(v) => {
                        lemma_written_line(cur, indent(line), e, r.pending, k);
                        lemma_run_push(st, r.out, option_text(indent(line), option_names()[k], v));
                        assert forall|j: int| 0 <= j < 4 && (#[trigger] r2.pending[j]) is Some implies r2.pending[j]
                            == new_values(e)[j] by {
                            assert(r2.pending[j] == r.pending[j]);
                        }
                    },
                    None => {},
                }
            } else {
                lemma_run_push(st, r.out, line);
                lemma_kw_distinct();
                assert(step(cur, line) == cur);
            }
        },
    }
}

proof fn lemma_rewrite_run(body: Seq<Seq<char>>, e: HostView, st: ParseState)
    requires
        writable(e),
        st.current == seq![bare_host(e.alias)],
        forall|i: int| 0 <= i < body.len() ==> !is_header(#[trigger] body[i]) && no_newline(body[i]),
    ensures
        rewrite_inv(
            rewrite_run(Rewrite { out: seq![], pending: new_values(e), indent: None }, body),
            e,
            st,
        ),
    decreases body.len(),
{
    let init = Rewrite { out: seq![], pending: new_values(e), indent: None };
    if body.len() == 0 {
        assert(written(e, new_values(e)) == bare_host(e.alias));
        assert(run_from(st, init.out) == st);
    } else {
        let b = body.drop_last();
        assert forall|i: int| 0 <= i < b.len() implies !is_header(#[trigger] b[i]) && no_newline(b[i]) by {
            assert(b[i] == body[i]);
        }
        lemma_rewrite_run(b, e, st);
        assert(!is_header(body[body.len() - 1]) && no_newline(body[body.len() - 1]));
        lemma_rewrite_step(rewrite_run(init, b), body.last(), e, st);
    }
}

/// Writing the options still pending sets them on the open entry.
proof fn lemma_pending_lines(r: Rewrite, ind: Seq<char>, e: HostView, st: ParseState)
    requires
        writable(e),
        rewrite_inv(r, e, st),
        is_blank(ind),
        no_newline(ind),
    ensures
        run_from(st, r.out + pending_lines(r.pending, ind)) == (ParseState {
            hosts: st.hosts,
            current: seq![e],
        }),
        forall|i: int| 0 <= i < pending_lines(r.pending, ind).len() ==> no_newline(
            #[trigger] pending_lines(r.pending, ind)[i],
        ),
{
    let p0 = r.pending;
    let p1 = if p0[0] is Some { p0.update(0, None) } else { p0 };
    let p2 = if p1[1] is Some { p1.update(1, None) } else { p1 };
    let p3 = if p2[2] is Some { p2.update(2, None) } else { p2 };
    let p4 = if p3[3] is Some { p3.update(3, None) } else { p3 };
    let l0 = pending_line(p0, 0, ind);
    let l1 = pending_line(p0, 1, ind);
    let l2 = pending_line(p0, 2, ind);
    let l3 = pending_line(p0, 3, ind);
    let s0 = run_from(st, r.out);
    // option 0
    if p0[0] is Some {
        lemma_written_line(s0, ind, e, p0, 0);
        crate::laws::lemma_run_from_one(s0, l0[0]);
    }
    let s1 = ParseState { hosts: st.hosts, current: seq![written(e, p1)] };
    assert(run_from(s0, l0) == s1);
    assert(p1[1] == p0[1] && p1[2] == p0[2] && p1[3] == p0[3]);
    if p1[1] is Some {
        lemma_written_line(s1, ind, e, p1, 1);
        crate::laws::lemma_run_from_one(s1, l1[0]);
    }
    let s2 = ParseState { hosts: st.hosts, current: seq![written(e, p2)] };
    assert(run_from(s1, l1) == s2);
    assert(p2[2] == p0[2] && p2[3] == p0[3]);
    if p2[2] is Some {
        lemma_written_line(s2, ind, e, p2, 2);
        crate::laws::lemma_run_from_one(s2, l2[0]);
    }
    let s3 = ParseState { hosts: st.hosts, current: seq![written(e, p3)] };
    assert(run_from(s2, l2) == s3);
    assert(p3[3] == p0[3]);
    if p3[3] is Some {
        lemma_written_line(s3, ind, e, p3, 3);
        crate::laws::lemma_run_from_one(s3, l3[0]);
    }
    let s4 = ParseState { hosts: st.hosts, current: seq![written(e, p4)] };
    assert(run_from(s3, l3) == s4);
    assert(written(e, p4) == e);
    lemma_run_from_append(st, r.out, l0);
    lemma_run_from_append(st, r.out + l0, l1);
    lemma_run_from_append(st, r.out + l0 + l1, l2);
    lemma_run_from_append(st, r.out + l0 + l1 + l2, l3);
    assert(r.out + pending_lines(r.pending, ind) =~= r.out + l0 + l1 + l2 + l3);
}

/// The indented `Host` line of a rewritten block opens a block with exactly its alias.
proof fn lemma_new_host_line(st: ParseState, ind: Seq<char>, a: Seq<char>)
    requires
        is_blank(ind),
        no_newline(ind),
        is_host_name(a),
        plain_value(a),
    ensures
        step(st, ind + host_prefix() + a) == (ParseState {
            hosts: flat(st),
            current: seq![bare_host(a)],
        }),
        no_newline(ind + host_prefix() + a),
{
    let hl = ind + host_prefix() + a;
    lemma_lower_names();
    lemma_names_are_keys();
    assert(hl =~= option_text(ind, name_host(), a));
    lemma_keyword_of_option(ind, name_host(), a);
    lemma_option_value_plain(a);
    lemma_words_single(a);
    let ws = seq![a];
    assert(ws.drop_last() =~= Seq::<Seq<char>>::empty());
    assert(hosts_for(ws.drop_last()) =~= Seq::<HostView>::empty());
    assert(ws.last() == a);
    assert(hosts_for(ws) =~= seq![bare_host(a)]);
    if hl.contains('\n') {
        let i = choose|i: int| 0 <= i < hl.len() && hl[i] == '\n';
        if i < ind.len() {
            assert(hl[i] == ind[i]);
        } else if i < ind.len() + 5 {
            assert(hl[i] == host_prefix()[i - ind.len()]);
        } else {
            assert(hl[i] == a[i - ind.len() - 5]);
            assert(is_ws('\n'));
        }
    }
}

/// Reading a rewritten block closes the entries read before and leaves exactly the
/// new entry open.
pub proof fn lemma_run_new_block(st: ParseState, header: Seq<char>, body: Seq<Seq<char>>, e: HostView)
    requires
        writable(e),
        no_newline(header),
        forall|i: int| 0 <= i < body.len() ==> !is_header(#[trigger] body[i]) && no_newline(body[i]),
    ensures
        run_from(st, new_block(header, body, e)) == (ParseState { hosts: flat(st), current: seq![e] }),
        forall|i: int| 0 <= i < new_block(header, body, e).len() ==> no_newline(
            #[trigger] new_block(header, body, e)[i],
        ),
{
    lemma_indent_blank(header);
    let hl = indent(header) + host_prefix() + e.alias;
    lemma_new_host_line(st, indent(header), e.alias);
    let s1 = ParseState { hosts: flat(st), current: seq![bare_host(e.alias)] };
    crate::laws::lemma_run_from_one(st, hl);
    let r = rewrite_run(Rewrite { out: seq![], pending: new_values(e), indent: None }, body);
    lemma_rewrite_run(body, e, s1);
    let ind = match r.indent {
        Some(i) => i,
        None => default_indent(),
    };
    lemma_default_indent_blank();
    if default_indent().contains('\n') {
        let i = choose|i: int| 0 <= i < default_indent().len() && default_indent()[i] == '\n';
        assert(default_indent()[i] == ' ');
    }
    lemma_pending_lines(r, ind, e, s1);
    let nb = new_block(header, body, e);
    assert(nb =~= seq![hl] + (r.out + pending_lines(r.pending, ind)));
    lemma_run_from_append(st, seq![hl], r.out + pending_lines(r.pending, ind));
    let tail = r.out + pending_lines(r.pending, ind);
    assert forall|i: int| 0 <= i < nb.len() implies no_newline(#[trigger] nb[i]) by {
        if i == 0 {
            assert(nb[0] == hl);
        } else if i - 1 < r.out.len() {
            assert(nb[i] == r.out[i - 1]);
        } else {
            assert(nb[i] == pending_lines(r.pending, ind)[i - 1 - r.out.len()]);
        }
    }
}

/// Rewriting the block of `alias` for entry `e` replaces exactly the entries that this
/// block yields (at most one) by `e`, and leaves every other entry, in order; for every
/// `e` whose alias is a host name and whose values an option line carries unchanged.
pub proof fn update_then_parse(content: Seq<char>, alias: Seq<char>, e: HostView)
    requires
        writable(e),
        updated_lines(lines(content), alias, e) is Some,
    ensures
        exists|p: Seq<HostView>, x: Seq<HostView>, q: Seq<HostView>|
            {
                &&& x.len() <= 1
                &&& parsed(content) == p + x + q
                &&& parsed(unlines(updated_lines(lines(content), alias, e)->0)) == p + seq![e] + q
            },
{
    let ls = lines(content);
    lemma_block_shape(ls, alias);
    let (s, t) = block_of(ls, alias)->0;
    let stop = block_stop(ls, alias);
    let body = ls.subrange(s + 1, t);
    let nb = new_block(ls[s], body, e);
    let out = updated_lines(ls, alias, e)->0;
    assert(out == ls.take(s) + nb + ls.skip(t));
    lemma_lines_no_newline(content);
    assert forall|i: int| 0 <= i < body.len() implies !is_header(#[trigger] body[i]) && no_newline(body[i]) by {
        assert(body[i] == ls[s + 1 + i]);
    }
    let st0 = run(ls.take(s));
    lemma_run_new_block(st0, ls[s], body, e);
    // the text of the result reads as its lines
    assert forall|i: int| 0 <= i < out.len() implies no_newline(#[trigger] out[i]) by {
        if i < s {
            assert(out[i] == ls[i]);
        } else if i < s + nb.len() {
            assert(out[i] == nb[i - s]);
        } else {
            assert(out[i] == ls[t + i - s - nb.len()]);
        }
    }
    lemma_lines_unlines(out);
    lemma_run_strip_cr(start_state(), out);
    // reading the result
    let mid = ls.subrange(t, stop);
    let after = ls.skip(stop);
    assert(ls.skip(t) =~= mid + after);
    assert(out =~= ls.take(s) + nb + mid + after);
    lemma_run_from_append(start_state(), ls.take(s) + nb + mid, after);
    lemma_run_from_append(start_state(), ls.take(s) + nb, mid);
    lemma_run_from_append(start_state(), ls.take(s), nb);
    let s1 = ParseState { hosts: flat(st0), current: seq![e] };
    assert forall|i: int| 0 <= i < mid.len() implies keyword_of(#[trigger] mid[i]) is None by {
        assert(mid[i] == ls[t + i]);
        lemma_filler_inert(mid[i]);
    }
    lemma_run_inert(s1, mid);
    if after.len() > 0 {
        assert(after[0] == ls[stop]);
    }
    lemma_run_from_boundary(s1, after);
    // reading the text before the edit
    assert(ls =~= ls.take(s) + ls.subrange(s, stop) + after);
    lemma_run_from_append(start_state(), ls.take(s) + ls.subrange(s, stop), after);
    lemma_run_from_append(start_state(), ls.take(s), ls.subrange(s, stop));
    lemma_run_old_block(st0, ls, alias);
    lemma_target_yields_one(st0, ls[s], alias);
    let r = run_from(st0, ls.subrange(s, stop));
    lemma_run_from_boundary(r, after);
    let p = flat(st0);
    let x = r.current;
    let q = flat(run(after));
    assert(flat(r) == p + x);
    assert(parsed(content) =~= p + x + q);
    assert(flat(s1) =~= p + seq![e]);
    assert(parsed(unlines(out)) =~= p + seq![e] + q);
}

// ---------------------------------------------------------------------------
// Lines that the rewrite does not model are kept
// ---------------------------------------------------------------------------

/// A line for one of the options that this library writes.
pub open spec fn is_modeled(l: Seq<char>) -> bool {
    match keyword_of(l) {
        Some((k, _)) => slot(k) >= 0,
        None => false,
    }
}

/// The lines that are not for an option this library writes, in order.
pub open spec fn unmodeled(ls: Seq<Seq<char>>) -> Seq<Seq<char>>
    decreases ls.len(),
{
    if ls.len() == 0 {
        seq![]
    } else if is_modeled(ls.last()) {
        unmodeled(ls.drop_last())
    } else {
        unmodeled(ls.drop_last()).push(ls.last())
    }
}

/// An indented `Name value` line has the lower-cased name as its keyword.
proof fn lemma_key_of_option(ind: Seq<char>, name: Seq<char>, v: Seq<char>)
    requires
        is_blank(ind),
        name.len() > 0,
        name[0] != '#',
        forall|k: int| 0 <= k < name.len() ==> (crate::parse::key_char())(#[trigger] name[k]),
    ensures
        keyword_of(option_text(ind, name, v)) matches Some((k, _)) && k == lower(name),
{
    let line = option_text(ind, name, v);
    assert forall|k: int| 0 <= k < ind.len() implies (ws())(#[trigger] line[k]) by {
        assert(line[k] == ind[k]);
    }
    assert(line[ind.len() as int] == name[0]);
    lemma_prefix_len(line, ws(), ind.len() as int);
    let t = trim_start(line);
    assert(t =~= name + seq![' '] + v);
    assert forall|k: int| 0 <= k < name.len() implies (crate::parse::key_char())(#[trigger] t[k]) by {
        assert(t[k] == name[k]);
    }
    assert(t[name.len() as int] == ' ');
    assert(is_ws(' '));
    lemma_prefix_len(t, crate::parse::key_char(), name.len() as int);
    assert(t.take(name.len() as int) =~= name);
}

proof fn lemma_option_line_modeled(ind: Seq<char>, k: int, v: Seq<char>)
    requires
        is_blank(ind),
        0 <= k < 4,
    ensures
        is_modeled(option_text(ind, option_names()[k], v)),
{
    lemma_names_are_keys();
    lemma_lower_names();
    lemma_key_of_option(ind, option_names()[k], v);
}

proof fn lemma_unmodeled_push(ls: Seq<Seq<char>>, l: Seq<char>)
    ensures
        unmodeled(ls.push(l)) == if is_modeled(l) {
            unmodeled(ls)
        } else {
            unmodeled(ls).push(l)
        },
{
    assert(ls.push(l).drop_last() =~= ls);
    assert(ls.push(l).last() == l);
}

proof fn lemma_unmodeled_append_modeled(ls: Seq<Seq<char>>, m: Seq<Seq<char>>)
    requires
        forall|i: int| 0 <= i < m.len() ==> is_modeled(#[trigger] m[i]),
    ensures
        unmodeled(ls + m) == unmodeled(ls),
    decreases m.len(),
{
    if m.len() == 0 {
        assert(ls + m =~= ls);
    } else {
        let init = m.drop_last();
        assert forall|i: int| 0 <= i < init.len() implies is_modeled(#[trigger] init[i]) by {
            assert(init[i] == m[i]);
        }
        lemma_unmodeled_append_modeled(ls, init);
        assert((ls + m).drop_last() =~= ls + init);
        assert((ls + m).last() == m[m.len() - 1]);
    }
}

proof fn lemma_rewrite_keeps_unmodeled(body: Seq<Seq<char>>, e: HostView)
    ensures
        ({
            let r = rewrite_run(Rewrite { out: seq![], pending: new_values(e), indent: None }, body);
            &&& unmodeled(r.out) == unmodeled(body)
            &&& r.pending.len() == 4
            &&& r.indent matches Some(i) ==> is_blank(i)
        }),
    decreases body.len(),
{
    let init = Rewrite { out: seq![], pending: new_values(e), indent: None };
    if body.len() == 0 {
        assert(unmodeled(init.out) =~= unmodeled(body));
    } else {
        let b = body.drop_last();
        let l = body.last();
        lemma_rewrite_keeps_unmodeled(b, e);
        let r = rewrite_run(init, b);
        lemma_unmodeled_push(b, l);
        assert(body =~= b.push(l));
        match keyword_of(l) {
            None => {
                lemma_unmodeled_push(r.out, l);
            },
            Some((key, _rest)) => {
                lemma_prefix_len_facts(l, ws());
                let ind = indent(l);
                assert forall|j: int| 0 <= j < ind.len() implies is_ws(#[trigger] ind[j]) by {
                    assert(ind[j] == l[j]);
                    assert((ws())(l[j]));
                }
                let k = slot(key);
                if k >= 0 {
                    match r.pending[k] {
                        Some(v) => {
                            lemma_option_line_modeled(ind, k, v);
                            lemma_unmodeled_push(r.out, option_text(ind, option_names()[k], v));
                        },
                        None => {},
                    }
                } else {
                    lemma_unmodeled_push(r.out, l);
                }
            },
        }
    }
}

/// Rewriting a block keeps, verbatim and in order, every line of its body that is not
/// for one of the options this library writes (comments, blank lines, and options such
/// as `ProxyJump`); only lines for `HostName`, `User`, `Port` and `IdentityFile` change.
pub proof fn update_keeps_other_lines(header: Seq<char>, body: Seq<Seq<char>>, e: HostView)
    ensures
        unmodeled(new_block(header, body, e).skip(1)) == unmodeled(body),
{
    let r = rewrite_run(Rewrite { out: seq![], pending: new_values(e), indent: None }, body);
    lemma_rewrite_keeps_unmodeled(body, e);
    let ind = match r.indent {
        Some(i) => i,
        None => default_indent(),
    };
    lemma_default_indent_blank();
    let pl = pending_lines(r.pending, ind);
    assert forall|i: int| 0 <= i < pl.len() implies is_modeled(#[trigger] pl[i]) by {
        let l0 = pending_line(r.pending, 0, ind);
        let l1 = pending_line(r.pending, 1, ind);
        let l2 = pending_line(r.pending, 2, ind);
        let l3 = pending_line(r.pending, 3, ind);
        assert(pl =~= l0 + l1 + l2 + l3);
        if i < l0.len() {
            lemma_option_line_modeled(ind, 0, r.pending[0]->0);
            assert(pl[i] == l0[i]);
        } else if i < l0.len() + l1.len() {
            lemma_option_line_modeled(ind, 1, r.pending[1]->0);
            assert(pl[i] == l1[i - l0.len()]);
        } else if i < l0.len() + l1.len() + l2.len() {
            lemma_option_line_modeled(ind, 2, r.pending[2]->0);
            assert(pl[i] == l2[i - l0.len() - l1.len()]);
        } else {
            lemma_option_line_modeled(ind, 3, r.pending[3]->0);
            assert(pl[i] == l3[i - l0.len() - l1.len() - l2.len()]);
        }
    }
    lemma_unmodeled_append_modeled(r.out, pl);
    assert(new_block(header, body, e).skip(1) =~= r.out + pl);
}

} // verus!
