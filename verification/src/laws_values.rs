//! What the summary line, the prompt answers, the `Host` line aliases and the
//! duplicate check mean, stated over their inputs.

use vstd::prelude::*;
use crate::entry::{has_alias, none_if_blank};
use crate::host::{bare_host, summary, HostView};
use crate::laws::{
    lemma_keyword_of_option, lemma_lines_one, lemma_lower_names, lemma_names_are_keys,
    lemma_option_value_plain, lemma_run_from_one, lemma_words_single, plain_value,
};
use crate::number::{
    decimal_string, decimal_value, digit_char, digit_value, is_digit, lemma_decimal_string,
    parse_u16, unsigned_digits,
};
use crate::edit::{block_of, not_target};
use crate::parse::{hosts_for, keyword_of, kw_host, parsed, run, start_state};
use crate::render::{host_prefix, name_host, option_text, separator};
use crate::text::{
    has_ws, is_blank, is_ws, lemma_prefix_len_facts, words, lemma_suffix_len_facts, prefix_len,
    strip_cr, suffix_len, trim, trim_start, ws,
};

verus! {

// ---------------------------------------------------------------------------
// The summary line
// ---------------------------------------------------------------------------

/// The summary of an entry shows, in order: its alias, spaces up to column 20, one
/// space, its user (`-` when it has none), `@`, its hostname (`-` when it has none),
/// `:`, and its own port in decimal (22 when it has none). The text after that `:`
/// holds no `:`, so it is what follows the last `:` of the line; it depends on the
/// port alone, whatever the user and hostname are.
pub proof fn summary_shows_each_field(h: HostView)
    ensures
        ({
            let s = summary(h);
            let n: int = if h.alias.len() >= 20 {
                h.alias.len() as int
            } else {
                20
            };
            let u = match h.user {
                Some(u) => u,
                None => seq!['-'],
            };
            let host = match h.hostname {
                Some(x) => x,
                None => seq!['-'],
            };
            let p = match h.port {
                Some(p) => decimal_string(p as nat),
                None => seq!['2', '2'],
            };
            let at = n + 1 + u.len();
            let colon = at + 1 + host.len();
            &&& s.take(h.alias.len() as int) == h.alias
            &&& forall|k: int| h.alias.len() <= k < n ==> s[k] == ' '
            &&& s[n] == ' '
            &&& s.subrange(n + 1, at) == u
            &&& s[at] == '@'
            &&& s.subrange(at + 1, colon) == host
            &&& s[colon] == ':'
            &&& s.skip(colon + 1) == p
            &&& !p.contains(':')
        }),
{
    let s = summary(h);
    let n: int = if h.alias.len() >= 20 {
        h.alias.len() as int
    } else {
        20
    };
    let u = match h.user {
        Some(u) => u,
        None => seq!['-'],
    };
    let host = match h.hostname {
        Some(x) => x,
        None => seq!['-'],
    };
    let p = match h.port {
        Some(p) => decimal_string(p as nat),
        None => seq!['2', '2'],
    };
    let pad = crate::host::pad20(h.alias);
    assert(pad.len() == n);
    assert(s =~= pad + seq![' '] + u + seq!['@'] + host + seq![':'] + p);
    let at = n + 1 + u.len();
    let colon = at + 1 + host.len();
    assert(s.take(h.alias.len() as int) =~= h.alias);
    assert forall|k: int| h.alias.len() <= k < n implies s[k] == ' ' by {
        assert(s[k] == pad[k]);
    }
    assert(s.subrange(n + 1, at) =~= u);
    assert(s.subrange(at + 1, colon) =~= host);
    assert(s.skip(colon + 1) =~= p);
    match h.port {
        Some(q) => {
            lemma_decimal_string(q as nat);
            if p.contains(':') {
                let k = choose|k: int| 0 <= k < p.len() && p[k] == ':';
                assert(is_digit(p[k]));
            }
        },
        None => {
            assert(p[0] != ':' && p[1] != ':');
        },
    }
}

// ---------------------------------------------------------------------------
// Trimmed answers
// ---------------------------------------------------------------------------

/// `trim(s)` is `s` itself with only leading and trailing whitespace taken away: a
/// contiguous piece of `s` (letters and their case untouched), with whitespace only
/// before and after it, and it starts and ends with a non-whitespace character. It is
/// empty exactly when `s` is all whitespace.
pub proof fn trim_keeps_the_text(s: Seq<char>)
    ensures
        exists|i: int, j: int|
            {
                &&& 0 <= i <= j <= s.len()
                &&& trim(s) == s.subrange(i, j)
                &&& is_blank(s.take(i))
                &&& is_blank(s.skip(j))
            },
        trim(s).len() > 0 ==> !is_ws(trim(s)[0]) && !is_ws(trim(s).last()),
        trim(s).len() == 0 <==> is_blank(s),
{
    let a = prefix_len(s, ws());
    lemma_prefix_len_facts(s, ws());
    let t = trim_start(s);
    let b = suffix_len(t, ws());
    lemma_suffix_len_facts(t, ws());
    let i = a as int;
    let j = s.len() - b;
    assert(trim(s) =~= s.subrange(i, j));
    assert forall|k: int| 0 <= k < s.take(i).len() implies is_ws(#[trigger] s.take(i)[k]) by {
        assert((ws())(s[k]));
    }
    assert forall|k: int| 0 <= k < s.skip(j).len() implies is_ws(#[trigger] s.skip(j)[k]) by {
        assert(s.skip(j)[k] == t[t.len() - b + k]);
        assert((ws())(t[t.len() - b + k]));
    }
    if trim(s).len() > 0 {
        assert(trim(s)[0] == s[i]);
        assert(i < s.len());
        assert(!(ws())(s[i]));
        assert(trim(s).last() == t[t.len() - 1 - b]);
        assert(!(ws())(t[t.len() - 1 - b]));
    } else {
        if i < s.len() {
            assert(t.len() > 0);
            assert(b == t.len());
            assert((ws())(t[0]));
            assert(t[0] == s[i]);
        }
        assert forall|k: int| 0 <= k < s.len() implies is_ws(#[trigger] s[k]) by {
            assert((ws())(s[k]));
        }
    }
    if is_blank(s) && i < s.len() {
        assert(is_ws(s[i]));
    }
    assert(0 <= i <= j <= s.len());
    assert(trim(s) == s.subrange(i, j) && is_blank(s.take(i)) && is_blank(s.skip(j)));
}

/// A prompt answer that is not blank is kept as typed, less the whitespace around it:
/// the value is a contiguous piece of the answer with only whitespace before and after
/// it, and it neither starts nor ends with whitespace. A blank answer gives no value.
pub proof fn answers_are_kept_as_typed(s: Seq<char>)
    ensures
        none_if_blank(s) is None <==> is_blank(s),
        none_if_blank(s) matches Some(t) ==> {
            &&& t.len() > 0
            &&& !is_ws(t[0])
            &&& !is_ws(t.last())
            &&& exists|i: int, j: int|
                {
                    &&& 0 <= i <= j <= s.len()
                    &&& t == s.subrange(i, j)
                    &&& is_blank(s.take(i))
                    &&& is_blank(s.skip(j))
                }
        },
{
    trim_keeps_the_text(s);
}

// ---------------------------------------------------------------------------
// Which aliases of a `Host` line become entries
// ---------------------------------------------------------------------------

/// A `Host` line with one alias yields an entry for that alias, with no options,
/// unless the alias holds `*` or `?` or starts with `!`; then it yields none. This holds
/// for every alias that is one word and that the line carries unchanged.
pub proof fn host_line_yields_its_alias(a: Seq<char>)
    requires
        a.len() > 0,
        !has_ws(a),
        plain_value(a),
    ensures
        parsed(host_prefix() + a + seq!['\n']) == if a.contains('*') || a.contains('?') || a[0]
            == '!' {
            Seq::<HostView>::empty()
        } else {
            seq![bare_host(a)]
        },
{
    let hl = host_prefix() + a;
    assert(host_prefix() + a + seq!['\n'] =~= hl.push('\n'));
    if hl.contains('\n') {
        let k = choose|k: int| 0 <= k < hl.len() && hl[k] == '\n';
        if k < 5 {
            assert(hl[k] == host_prefix()[k]);
        } else {
            assert(hl[k] == a[k - 5]);
            assert(is_ws('\n'));
            assert(has_ws(a));
        }
    }
    lemma_lines_one(hl);
    assert(hl.last() == a.last());
    if a.last() == '\r' {
        assert(is_ws('\r'));
        assert(has_ws(a));
    }
    assert(strip_cr(hl) == hl);
    lemma_lower_names();
    lemma_names_are_keys();
    assert(hl =~= option_text(seq![], name_host(), a));
    assert(is_blank(Seq::<char>::empty()));
    lemma_keyword_of_option(seq![], name_host(), a);
    lemma_option_value_plain(a);
    lemma_words_single(a);
    let ws = seq![a];
    assert(ws.drop_last() =~= Seq::<Seq<char>>::empty());
    assert(hosts_for(ws.drop_last()) =~= Seq::<HostView>::empty());
    assert(ws.last() == a);
    lemma_run_from_one(start_state(), hl);
    let st = run(seq![hl]);
    assert(st.hosts =~= Seq::<HostView>::empty());
    if a.contains('*') || a.contains('?') || a[0] == '!' {
        assert(hosts_for(ws) =~= Seq::<HostView>::empty());
        assert(parsed(hl.push('\n')) =~= Seq::<HostView>::empty());
    } else {
        assert(hosts_for(ws) =~= seq![bare_host(a)]);
        assert(parsed(hl.push('\n')) =~= seq![bare_host(a)]);
    }
}

// ---------------------------------------------------------------------------
// Duplicate aliases
// ---------------------------------------------------------------------------

/// An entry with the alias at any position makes the alias a duplicate, so adding
/// it (`add_entry`) or renaming to it (`update_entry`) is refused.
pub proof fn any_entry_with_alias_is_a_duplicate(hosts: Seq<HostView>, a: Seq<char>, i: int)
    requires
        0 <= i < hosts.len(),
        hosts[i].alias == a,
    ensures
        has_alias(hosts, a),
{
    assert(hosts[i].alias == a);
}

/// An alias is a duplicate only when some entry has it.
pub proof fn duplicates_have_an_entry(hosts: Seq<HostView>, a: Seq<char>)
    ensures
        has_alias(hosts, a) ==> exists|i: int| 0 <= i < hosts.len() && hosts[i].alias == a,
{
}

// ---------------------------------------------------------------------------
// The separator before an appended block
// ---------------------------------------------------------------------------

/// `k` line endings.
pub open spec fn newlines(k: nat) -> Seq<char> {
    Seq::new(k, |i: int| '\n')
}

/// Whether a text is empty or ends in a blank line (two line endings).
pub open spec fn ends_blank(t: Seq<char>) -> bool {
    t.len() == 0 || (t.len() >= 2 && t[t.len() - 1] == '\n' && t[t.len() - 2] == '\n')
}

/// What stands between an existing text and an appended block is the fewest line
/// endings after which the text is empty or ends in a blank line: only line endings,
/// enough of them, and no fewer would do.
pub proof fn separator_is_fewest_line_endings(existing: Seq<char>)
    ensures
        separator(existing) == newlines(separator(existing).len()),
        ends_blank(existing + separator(existing)),
        forall|k: nat| k < separator(existing).len() ==> !ends_blank(existing + #[trigger] newlines(k)),
{
    let sep = separator(existing);
    assert(sep =~= newlines(sep.len()));
    let t = existing + sep;
    if sep.len() == 1 {
        assert(t[t.len() - 1] == '\n');
        assert(t[t.len() - 2] == existing[existing.len() - 1]);
    } else if sep.len() == 2 {
        assert(t[t.len() - 1] == '\n');
        assert(t[t.len() - 2] == '\n');
    }
    assert forall|k: nat| k < sep.len() implies !ends_blank(existing + #[trigger] newlines(k)) by {
        let u = existing + newlines(k);
        if k == 0 {
            assert(u =~= existing);
        } else {
            assert(u[u.len() - 2] == existing[existing.len() - 1]);
        }
    }
}

// ---------------------------------------------------------------------------
// Port numbers
// ---------------------------------------------------------------------------

/// `z` zero digits.
pub open spec fn zeros(z: nat) -> Seq<char> {
    Seq::new(z, |i: int| '0')
}

proof fn lemma_value_zeros(z: nat)
    ensures
        decimal_value(zeros(z)) == 0,
    decreases z,
{
    if z > 0 {
        assert(zeros(z).drop_last() =~= zeros((z - 1) as nat));
        lemma_value_zeros((z - 1) as nat);
    }
}

proof fn lemma_value_after_zeros(z: nat, x: Seq<char>)
    ensures
        decimal_value(zeros(z) + x) == decimal_value(x),
    decreases x.len(),
{
    if x.len() == 0 {
        assert(zeros(z) + x =~= zeros(z));
        lemma_value_zeros(z);
    } else {
        assert((zeros(z) + x).drop_last() =~= zeros(z) + x.drop_last());
        assert((zeros(z) + x).last() == x.last());
        lemma_value_after_zeros(z, x.drop_last());
    }
}

proof fn lemma_digit_roundtrip(c: char)
    requires
        is_digit(c),
    ensures
        0 <= digit_value(c) < 10,
        digit_char(digit_value(c) as nat) == c,
{
}

/// A string of digits is some zeros followed by the decimal form of its value.
proof fn lemma_digits_split(d: Seq<char>) -> (z: nat)
    requires
        d.len() > 0,
        forall|k: int| 0 <= k < d.len() ==> is_digit(#[trigger] d[k]),
    ensures
        decimal_value(d) >= 0,
        d == zeros(z) + decimal_string(decimal_value(d) as nat),
    decreases d.len(),
{
    let c = d.last();
    assert(is_digit(d[d.len() - 1]));
    lemma_digit_roundtrip(c);
    let cv = digit_value(c);
    if d.len() == 1 {
        assert(d.drop_last() =~= Seq::<char>::empty());
        assert(decimal_value(d) == decimal_value(Seq::<char>::empty()) * 10 + cv);
        assert(decimal_string(cv as nat) == seq![c]);
        assert(d =~= zeros(0) + seq![c]);
        0
    } else {
        let e = d.drop_last();
        assert forall|k: int| 0 <= k < e.len() implies is_digit(#[trigger] e[k]) by {
            assert(e[k] == d[k]);
        }
        let z0 = lemma_digits_split(e);
        let v0 = decimal_value(e);
        let v = decimal_value(d);
        assert(v == v0 * 10 + cv);
        if v0 == 0 {
            assert(decimal_string(0) == seq![digit_char(0)]);
            assert(e =~= zeros(z0 + 1));
            assert(decimal_string(cv as nat) == seq![c]);
            assert(d =~= zeros(z0 + 1) + decimal_string(v as nat));
            z0 + 1
        } else {
            assert((v0 * 10 + cv) / 10 == v0 && (v0 * 10 + cv) % 10 == cv) by (nonlinear_arith)
                requires
                    0 <= cv < 10,
                    v0 > 0,
            ;
            assert(decimal_string(v as nat) == decimal_string(v0 as nat).push(digit_char(cv as nat)));
            assert(d =~= e.push(c));
            assert(e.push(c) =~= zeros(z0) + decimal_string(v0 as nat).push(c));
            assert(d =~= zeros(z0) + decimal_string(v as nat));
            z0
        }
    }
}

proof fn lemma_zeros_then_decimal(z: nat, n: nat)
    ensures
        forall|k: int| 0 <= k < (zeros(z) + decimal_string(n)).len() ==> is_digit(
            #[trigger] (zeros(z) + decimal_string(n))[k],
        ),
        (zeros(z) + decimal_string(n)).len() > 0,
        decimal_value(zeros(z) + decimal_string(n)) == n,
        (zeros(z) + decimal_string(n))[0] != '+',
{
    lemma_decimal_string(n);
    let d = zeros(z) + decimal_string(n);
    assert forall|k: int| 0 <= k < d.len() implies is_digit(#[trigger] d[k]) by {
        if k >= z {
            assert(d[k] == decimal_string(n)[k - z]);
        }
    }
    lemma_value_after_zeros(z, decimal_string(n));
    assert(is_digit(d[0]));
}

/// A port is read from text exactly when the text is an optional `+`, then any number
/// of zeros, then the decimal form of a number up to 65535; that number is the port.
/// Larger numbers, a `-` sign and the empty text are refused.
pub proof fn port_text_is_decimal(s: Seq<char>)
    ensures
        parse_u16(s) matches Some(n) ==> exists|z: nat|
            s == zeros(z) + decimal_string(n as nat) || s == seq!['+'] + zeros(z) + decimal_string(
                n as nat,
            ),
        s.len() == 0 ==> parse_u16(s) is None,
        s.len() > 0 && s[0] == '-' ==> parse_u16(s) is None,
{
    match parse_u16(s) {
        Some(n) => {
            let d = unsigned_digits(s);
            let z = lemma_digits_split(d);
            if s.len() > 0 && s[0] == '+' {
                assert(s =~= seq!['+'] + d);
            } else {
                assert(s == d);
            }
            assert(s == zeros(z) + decimal_string(n as nat) || s == seq!['+'] + zeros(z)
                + decimal_string(n as nat));
        },
        None => {},
    }
    if s.len() > 0 && s[0] == '-' {
        assert(unsigned_digits(s) == s);
        assert(!is_digit(s[0]));
    }
}

/// Every number up to 65535, written in decimal after any number of zeros and an
/// optional `+`, is read back as that number.
pub proof fn decimal_port_is_read(n: u16, z: nat)
    ensures
        parse_u16(zeros(z) + decimal_string(n as nat)) == Some(n),
        parse_u16(seq!['+'] + zeros(z) + decimal_string(n as nat)) == Some(n),
{
    lemma_zeros_then_decimal(z, n as nat);
    let d = zeros(z) + decimal_string(n as nat);
    assert(unsigned_digits(d) == d);
    let p = seq!['+'] + d;
    assert(p.drop_first() =~= d);
    assert(seq!['+'] + zeros(z) + decimal_string(n as nat) =~= p);
}

/// Numbers above 65535 are refused.
pub proof fn large_port_is_refused(m: nat, z: nat)
    requires
        m > 65535,
    ensures
        parse_u16(zeros(z) + decimal_string(m)) is None,
        parse_u16(seq!['+'] + zeros(z) + decimal_string(m)) is None,
{
    lemma_zeros_then_decimal(z, m);
    let d = zeros(z) + decimal_string(m);
    assert(unsigned_digits(d) == d);
    let p = seq!['+'] + d;
    assert(p.drop_first() =~= d);
    assert(seq!['+'] + zeros(z) + decimal_string(m) =~= p);
}

// ---------------------------------------------------------------------------
// Which block is edited or removed
// ---------------------------------------------------------------------------

/// A `Host` line whose aliases are exactly `alias`, one word and nothing else.
pub open spec fn names_only(line: Seq<char>, alias: Seq<char>) -> bool {
    keyword_of(line) matches Some((k, r)) && k == kw_host() && words(r) == seq![alias]
}

/// The block that edit and remove work on starts at the first `Host` line that names
/// the alias and nothing else; when no line does (for instance when every `Host` line
/// naming it names other aliases too), there is none.
pub proof fn edited_block_is_first_sole_alias_line(ls: Seq<Seq<char>>, alias: Seq<char>)
    ensures
        block_of(ls, alias) matches Some((s, _)) ==> {
            &&& 0 <= s < ls.len()
            &&& names_only(ls[s], alias)
            &&& forall|j: int| 0 <= j < s ==> !names_only(#[trigger] ls[j], alias)
        },
        block_of(ls, alias) is None ==> forall|j: int| 0 <= j < ls.len() ==> !names_only(
            #[trigger] ls[j],
            alias,
        ),
{
    lemma_prefix_len_facts(ls, not_target(alias));
    let s = prefix_len(ls, not_target(alias));
    assert forall|j: int| 0 <= j < s implies !names_only(#[trigger] ls[j], alias) by {
        assert((not_target(alias))(ls[j]));
    }
    if s < ls.len() {
        assert(!(not_target(alias))(ls[s as int]));
    }
}

} // verus!
