//! Character-level text handling: whitespace, trimming, splitting into lines
//! and words, ASCII case folding.
//!
//! Text is modelled as `Seq<char>`, the view of `&str` and `String`.

use vstd::prelude::*;

verus! {

// ---------------------------------------------------------------------------
// Character classes
// ---------------------------------------------------------------------------

/// Whether `c` has the Unicode `White_Space` property (what `char::is_whitespace` tests,
/// and what `trim`, `trim_start`, `trim_end` and `split_whitespace` strip or split at).
pub open spec fn is_ws(c: char) -> bool {
    let n = c as u32;
    ||| 0x09 <= n <= 0x0D
    ||| n == 0x20
    ||| n == 0x85
    ||| n == 0xA0
    ||| n == 0x1680
    ||| 0x2000 <= n <= 0x200A
    ||| n == 0x2028
    ||| n == 0x2029
    ||| n == 0x202F
    ||| n == 0x205F
    ||| n == 0x3000
}

/// Executable whitespace test.
pub fn char_is_ws(c: char) -> (r: bool)
    ensures
        r == is_ws(c),
{
    let n = c as u32;
    (0x09 <= n && n <= 0x0D) || n == 0x20 || n == 0x85 || n == 0xA0 || n == 0x1680 || (0x2000
        <= n && n <= 0x200A) || n == 0x2028 || n == 0x2029 || n == 0x202F || n == 0x205F || n
        == 0x3000
}

pub open spec fn ws() -> spec_fn(char) -> bool {
    |c: char| is_ws(c)
}

pub open spec fn non_ws() -> spec_fn(char) -> bool {
    |c: char| !is_ws(c)
}

pub open spec fn not_newline() -> spec_fn(char) -> bool {
    |c: char| c != '\n'
}

pub open spec fn is_quote() -> spec_fn(char) -> bool {
    |c: char| c == '"'
}

// ---------------------------------------------------------------------------
// Longest prefix / suffix whose characters satisfy a predicate
// ---------------------------------------------------------------------------

/// Length of the longest prefix of `s` whose elements all satisfy `p`.
pub open spec fn prefix_len<A>(s: Seq<A>, p: spec_fn(A) -> bool) -> nat
    decreases s.len(),
{
    if s.len() > 0 && p(s[0]) {
        1 + prefix_len(s.drop_first(), p)
    } else {
        0
    }
}

/// Length of the longest suffix of `s` whose elements all satisfy `p`.
pub open spec fn suffix_len<A>(s: Seq<A>, p: spec_fn(A) -> bool) -> nat
    decreases s.len(),
{
    if s.len() > 0 && p(s.last()) {
        1 + suffix_len(s.drop_last(), p)
    } else {
        0
    }
}

/// `j` is the length of the longest `p`-prefix exactly when the first `j` elements
/// satisfy `p` and the next one (if any) does not.
pub proof fn lemma_prefix_len<A>(s: Seq<A>, p: spec_fn(A) -> bool, j: int)
    requires
        0 <= j <= s.len(),
        forall|k: int| 0 <= k < j ==> p(#[trigger] s[k]),
        j == s.len() || !p(s[j]),
    ensures
        prefix_len(s, p) == j,
    decreases j,
{
    if j > 0 {
        let t = s.drop_first();
        assert forall|k: int| 0 <= k < j - 1 implies p(#[trigger] t[k]) by {
            assert(t[k] == s[k + 1]);
        }
        lemma_prefix_len(t, p, j - 1);
    }
}

/// The longest `p`-prefix is within bounds, all its elements satisfy `p`, and the
/// character after it does not.
pub proof fn lemma_prefix_len_facts<A>(s: Seq<A>, p: spec_fn(A) -> bool)
    ensures
        prefix_len(s, p) <= s.len(),
        forall|k: int| 0 <= k < prefix_len(s, p) ==> p(#[trigger] s[k]),
        prefix_len(s, p) < s.len() ==> !p(s[prefix_len(s, p) as int]),
    decreases s.len(),
{
    if s.len() > 0 && p(s[0]) {
        let t = s.drop_first();
        lemma_prefix_len_facts(t, p);
        assert forall|k: int| 0 <= k < prefix_len(s, p) implies p(#[trigger] s[k]) by {
            if k > 0 {
                assert(s[k] == t[k - 1]);
            }
        }
        if prefix_len(s, p) < s.len() {
            assert(s[prefix_len(s, p) as int] == t[prefix_len(t, p) as int]);
        }
    }
}

/// Suffix counterpart of `lemma_prefix_len`.
pub proof fn lemma_suffix_len<A>(s: Seq<A>, p: spec_fn(A) -> bool, j: int)
    requires
        0 <= j <= s.len(),
        forall|k: int| s.len() - j <= k < s.len() ==> p(#[trigger] s[k]),
        j == s.len() || !p(s[s.len() - 1 - j]),
    ensures
        suffix_len(s, p) == j,
    decreases j,
{
    if j > 0 {
        let t = s.drop_last();
        assert forall|k: int| t.len() - (j - 1) <= k < t.len() implies p(#[trigger] t[k]) by {
            assert(t[k] == s[k]);
        }
        if j - 1 != t.len() {
            assert(t[t.len() - 1 - (j - 1)] == s[s.len() - 1 - j]);
        }
        lemma_suffix_len(t, p, j - 1);
    }
}

/// Suffix counterpart of `lemma_prefix_len_facts`.
pub proof fn lemma_suffix_len_facts<A>(s: Seq<A>, p: spec_fn(A) -> bool)
    ensures
        suffix_len(s, p) <= s.len(),
        forall|k: int| s.len() - suffix_len(s, p) <= k < s.len() ==> p(#[trigger] s[k]),
        suffix_len(s, p) < s.len() ==> !p(s[s.len() - 1 - suffix_len(s, p)]),
    decreases s.len(),
{
    if s.len() > 0 && p(s.last()) {
        let t = s.drop_last();
        lemma_suffix_len_facts(t, p);
        assert forall|k: int| s.len() - suffix_len(s, p) <= k < s.len() implies p(
            #[trigger] s[k],
        ) by {
            if k < s.len() - 1 {
                assert(s[k] == t[k]);
            }
        }
        if suffix_len(s, p) < s.len() {
            assert(s[s.len() - 1 - suffix_len(s, p)] == t[t.len() - 1 - suffix_len(t, p)]);
        }
    }
}

// ---------------------------------------------------------------------------
// Trimming
// ---------------------------------------------------------------------------

/// `str::trim_start`: drop leading whitespace.
pub open spec fn trim_start(s: Seq<char>) -> Seq<char> {
    s.skip(prefix_len(s, ws()) as int)
}

/// `str::trim_end`: drop trailing whitespace.
pub open spec fn trim_end(s: Seq<char>) -> Seq<char> {
    s.take(s.len() - suffix_len(s, ws()))
}

/// `str::trim`: drop leading and trailing whitespace.
pub open spec fn trim(s: Seq<char>) -> Seq<char> {
    trim_end(trim_start(s))
}

/// `str::trim_matches('"')`: drop leading and trailing double quotes.
pub open spec fn trim_quotes(s: Seq<char>) -> Seq<char> {
    let t = s.skip(prefix_len(s, is_quote()) as int);
    t.take(t.len() - suffix_len(t, is_quote()))
}

/// Whether `s` holds a whitespace character.
pub open spec fn has_ws(s: Seq<char>) -> bool {
    exists|k: int| 0 <= k < s.len() && is_ws(#[trigger] s[k])
}

/// Whether every character of `s` is whitespace (`s.trim().is_empty()`).
pub open spec fn is_blank(s: Seq<char>) -> bool {
    forall|k: int| 0 <= k < s.len() ==> is_ws(#[trigger] s[k])
}

// ---------------------------------------------------------------------------
// Lines and words
// ---------------------------------------------------------------------------

/// Drop one trailing carriage return.
pub open spec fn strip_cr(s: Seq<char>) -> Seq<char> {
    if s.len() > 0 && s.last() == '\r' {
        s.drop_last()
    } else {
        s
    }
}

/// `str::lines`: split at `\n`, dropping a `\r` right before it; a final line ending
/// adds no empty line, and the empty text has no lines.
pub open spec fn lines(s: Seq<char>) -> Seq<Seq<char>>
    decreases s.len(),
{
    if s.len() == 0 {
        seq![]
    } else {
        let n = prefix_len(s, not_newline());
        proof {
            lemma_prefix_len_facts(s, not_newline());
        }
        if n == s.len() {
            seq![s]
        } else {
            seq![strip_cr(s.take(n as int))] + lines(s.skip(n + 1int))
        }
    }
}

/// `str::split_whitespace`: the maximal runs of non-whitespace characters.
pub open spec fn words(s: Seq<char>) -> Seq<Seq<char>>
    decreases s.len(),
{
    let t = trim_start(s);
    proof {
        lemma_prefix_len_facts(s, ws());
    }
    if t.len() == 0 {
        seq![]
    } else {
        let k = prefix_len(t, non_ws());
        proof {
            lemma_prefix_len_facts(t, non_ws());
            assert(t[0] == s[prefix_len(s, ws()) as int]);
        }
        seq![t.take(k as int)] + words(t.skip(k as int))
    }
}

/// ASCII lower-case of one character.
pub open spec fn lower_char(c: char) -> char {
    if 'A' <= c && c <= 'Z' {
        ((c as u32) + 32) as char
    } else {
        c
    }
}

/// `str::to_ascii_lowercase`.
pub open spec fn lower(s: Seq<char>) -> Seq<char> {
    s.map_values(|c: char| lower_char(c))
}

/// The views of a sequence of character vectors.
pub open spec fn seqs_view(v: Seq<Vec<char>>) -> Seq<Seq<char>> {
    v.map_values(|l: Vec<char>| l@)
}

// ---------------------------------------------------------------------------
// Executable helpers
// ---------------------------------------------------------------------------

/// Appends `c` to `s` by calling `String::push`. Trusted, not proved: the contract
/// claims what the standard library documents, that the character is added at the end
/// and nothing else changes.
#[verifier::external_body]
pub(crate) fn push_char(s: &mut String, c: char)
    ensures
        final(s)@ == old(s)@.push(c),
{
    s.push(c);
}

/// Appends all of `cs` to `s`.
pub fn push_chars(s: &mut String, cs: &[char])
    ensures
        final(s)@ == old(s)@ + cs@,
{
    let ghost start = s@;
    for i in 0..cs.len()
        invariant
            s@ == start + cs@.take(i as int),
    {
        push_char(s, cs[i]);
        assert(cs@.take(i + 1) == cs@.take(i as int).push(cs@[i as int]));
    }
    assert(cs@.take(cs.len() as int) == cs@);
}

/// A `String` holding the characters `cs`.
pub fn string_of(cs: &[char]) -> (s: String)
    ensures
        s@ == cs@,
{
    let mut s = String::new();
    push_chars(&mut s, cs);
    s
}

/// The characters of `s`, in order.
pub fn to_chars(s: &str) -> (v: Vec<char>)
    ensures
        v@ == s@,
{
    let mut v: Vec<char> = Vec::new();
    for c in it: s.chars()
        invariant
            v@ == it.seq().take(it.index() as int),
            it.seq() == s@,
    {
        v.push(c);
    }
    v
}

/// The characters `s[lo..hi]` in a new vector.
pub fn sub_chars(s: &[char], lo: usize, hi: usize) -> (v: Vec<char>)
    requires
        lo <= hi <= s.len(),
    ensures
        v@ == s@.subrange(lo as int, hi as int),
{
    let mut v: Vec<char> = Vec::new();
    let mut i = lo;
    while i < hi
        invariant
            lo <= i <= hi <= s.len(),
            v@ == s@.subrange(lo as int, i as int),
        decreases hi - i,
    {
        v.push(s[i]);
        i += 1;
    }
    v
}

/// Whether `a` and `b` hold the same characters.
pub fn chars_eq(a: &[char], b: &[char]) -> (r: bool)
    ensures
        r == (a@ == b@),
{
    if a.len() != b.len() {
        return false;
    }
    for i in 0..a.len()
        invariant
            a@.len() == b@.len(),
            forall|k: int| 0 <= k < i ==> a@[k] == b@[k],
    {
        if a[i] != b[i] {
            return false;
        }
    }
    assert(a@ =~= b@);
    true
}

/// End of the run of whitespace that starts at `from`.
pub fn scan_ws(s: &[char], from: usize) -> (j: usize)
    requires
        from <= s.len(),
    ensures
        from <= j <= s.len(),
        j - from == prefix_len(s@.skip(from as int), ws()),
{
    let mut j = from;
    while j < s.len() && char_is_ws(s[j])
        invariant
            from <= j <= s.len(),
            forall|k: int| from <= k < j ==> is_ws(#[trigger] s@[k]),
        decreases s.len() - j,
    {
        j += 1;
    }
    proof {
        let t = s@.skip(from as int);
        assert forall|k: int| 0 <= k < j - from implies (ws())(#[trigger] t[k]) by {
            assert(t[k] == s@[from + k]);
        }
        if j < s.len() {
            assert(t[j - from] == s@[j as int]);
        }
        lemma_prefix_len(t, ws(), j - from);
    }
    j
}

/// End of the run of non-whitespace characters that starts at `from`.
pub fn scan_word(s: &[char], from: usize) -> (j: usize)
    requires
        from <= s.len(),
    ensures
        from <= j <= s.len(),
        j - from == prefix_len(s@.skip(from as int), non_ws()),
{
    let mut j = from;
    while j < s.len() && !char_is_ws(s[j])
        invariant
            from <= j <= s.len(),
            forall|k: int| from <= k < j ==> !is_ws(#[trigger] s@[k]),
        decreases s.len() - j,
    {
        j += 1;
    }
    proof {
        let t = s@.skip(from as int);
        assert forall|k: int| 0 <= k < j - from implies (non_ws())(#[trigger] t[k]) by {
            assert(t[k] == s@[from + k]);
        }
        if j < s.len() {
            assert(t[j - from] == s@[j as int]);
        }
        lemma_prefix_len(t, non_ws(), j - from);
    }
    j
}

/// Position of the first `\n` at or after `from`, or `s.len()`.
pub fn scan_line(s: &[char], from: usize) -> (j: usize)
    requires
        from <= s.len(),
    ensures
        from <= j <= s.len(),
        j - from == prefix_len(s@.skip(from as int), not_newline()),
{
    let mut j = from;
    while j < s.len() && s[j] != '\n'
        invariant
            from <= j <= s.len(),
            forall|k: int| from <= k < j ==> #[trigger] s@[k] != '\n',
        decreases s.len() - j,
    {
        j += 1;
    }
    proof {
        let t = s@.skip(from as int);
        assert forall|k: int| 0 <= k < j - from implies (not_newline())(#[trigger] t[k]) by {
            assert(t[k] == s@[from + k]);
        }
        if j < s.len() {
            assert(t[j - from] == s@[j as int]);
        }
        lemma_prefix_len(t, not_newline(), j - from);
    }
    j
}

/// `s.trim_start()`.
pub fn trim_start_chars(s: &[char]) -> (r: Vec<char>)
    ensures
        r@ == trim_start(s@),
{
    let i = scan_ws(s, 0);
    assert(s@.skip(0) == s@);
    sub_chars(s, i, s.len())
}

/// `s.trim_end()`.
pub fn trim_end_chars(s: &[char]) -> (r: Vec<char>)
    ensures
        r@ == trim_end(s@),
{
    let mut j = s.len();
    while j > 0 && char_is_ws(s[j - 1])
        invariant
            j <= s.len(),
            forall|k: int| j <= k < s.len() ==> is_ws(#[trigger] s@[k]),
        decreases j,
    {
        j -= 1;
    }
    proof {
        lemma_suffix_len(s@, ws(), s.len() - j);
    }
    sub_chars(s, 0, j)
}

/// `s.trim_matches('"')`.
pub fn trim_quotes_chars(s: &[char]) -> (r: Vec<char>)
    ensures
        r@ == trim_quotes(s@),
{
    let mut i: usize = 0;
    while i < s.len() && s[i] == '"'
        invariant
            i <= s.len(),
            forall|k: int| 0 <= k < i ==> #[trigger] s@[k] == '"',
        decreases s.len() - i,
    {
        i += 1;
    }
    proof {
        lemma_prefix_len(s@, is_quote(), i as int);
    }
    let mut j = s.len();
    while j > i && s[j - 1] == '"'
        invariant
            i <= j <= s.len(),
            forall|k: int| j <= k < s.len() ==> #[trigger] s@[k] == '"',
        decreases j,
    {
        j -= 1;
    }
    proof {
        let t = s@.skip(i as int);
        assert forall|k: int| t.len() - (s.len() - j) <= k < t.len() implies (is_quote())(
            #[trigger] t[k],
        ) by {
            assert(t[k] == s@[i + k]);
        }
        if j > i {
            assert(t[t.len() - 1 - (s.len() - j)] == s@[j - 1]);
        }
        lemma_suffix_len(t, is_quote(), s.len() - j);
        assert(t.take(t.len() - suffix_len(t, is_quote())) =~= s@.subrange(i as int, j as int));
    }
    sub_chars(s, i, j)
}

/// Whether every character of `s` is whitespace.
pub fn chars_blank(s: &[char]) -> (r: bool)
    ensures
        r == is_blank(s@),
{
    for i in 0..s.len()
        invariant
            forall|k: int| 0 <= k < i ==> is_ws(#[trigger] s@[k]),
    {
        if !char_is_ws(s[i]) {
            return false;
        }
    }
    true
}

/// `s.to_ascii_lowercase()`.
pub fn lower_chars(s: &[char]) -> (r: Vec<char>)
    ensures
        r@ == lower(s@),
{
    let mut r: Vec<char> = Vec::new();
    for i in 0..s.len()
        invariant
            r@ == lower(s@.take(i as int)),
    {
        let c = s[i];
        let l = if 'A' <= c && c <= 'Z' {
            ((c as u8) + 32) as char
        } else {
            c
        };
        r.push(l);
        assert(lower(s@.take(i + 1)) =~= lower(s@.take(i as int)).push(lower_char(c)));
    }
    assert(s@.take(s.len() as int) == s@);
    r
}

/// `s.lines()`, each line as a character vector.
pub fn split_lines(s: &[char]) -> (r: Vec<Vec<char>>)
    ensures
        seqs_view(r@) == lines(s@),
{
    let mut r: Vec<Vec<char>> = Vec::new();
    let mut start: usize = 0;
    assert(s@.skip(0) == s@);
    assert(seqs_view(r@) =~= seq![]);
    while start < s.len()
        invariant
            start <= s.len(),
            lines(s@) == seqs_view(r@) + lines(s@.skip(start as int)),
        decreases s.len() - start,
    {
        let ghost t = s@.skip(start as int);
        let ghost before = r@;
        let j = scan_line(s, start);
        let mut line = sub_chars(s, start, j);
        let ghost piece: Seq<char>;
        if j == s.len() {
            assert(line@ =~= t);
            proof {
                piece = line@;
            }
            start = j;
            assert(lines(t) == seq![piece]);
            assert(s@.skip(start as int) =~= seq![]);
        } else {
            assert(line@ =~= t.take(j - start));
            if line.len() > 0 && line[line.len() - 1] == '\r' {
                line.pop();
            }
            assert(line@ =~= strip_cr(t.take(j - start)));
            proof {
                piece = line@;
            }
            assert(t.skip(j - start + 1) =~= s@.skip(j + 1));
            start = j + 1;
            assert(lines(t) == seq![piece] + lines(s@.skip(start as int)));
        }
        r.push(line);
        assert(seqs_view(r@) =~= seqs_view(before).push(piece));
        assert(seqs_view(before) + seq![piece] + lines(s@.skip(start as int)) =~= seqs_view(r@)
            + lines(s@.skip(start as int)));
    }
    assert(s@.skip(start as int) =~= seq![]);
    r
}

/// `s.split_whitespace()`, each word as a character vector.
pub fn split_words(s: &[char]) -> (r: Vec<Vec<char>>)
    ensures
        seqs_view(r@) == words(s@),
{
    let mut r: Vec<Vec<char>> = Vec::new();
    let mut i: usize = 0;
    assert(s@.skip(0) == s@);
    assert(seqs_view(r@) =~= seq![]);
    while i < s.len()
        invariant
            i <= s.len(),
            words(s@) == seqs_view(r@) + words(s@.skip(i as int)),
        decreases s.len() - i,
    {
        let ghost u = s@.skip(i as int);
        let a = scan_ws(s, i);
        assert(trim_start(u) =~= s@.skip(a as int));
        if a == s.len() {
            assert(words(u) == Seq::<Seq<char>>::empty());
            i = a;
            assert(seqs_view(r@) + words(s@.skip(i as int)) =~= seqs_view(r@));
        } else {
            let ghost before = r@;
            let b = scan_word(s, a);
            let word = sub_chars(s, a, b);
            let ghost w = word@;
            assert(s@.skip(a as int).take(b - a) =~= w);
            assert(s@.skip(a as int).skip(b - a) =~= s@.skip(b as int));
            assert(words(u) == seq![w] + words(s@.skip(b as int)));
            r.push(word);
            i = b;
            assert(seqs_view(r@) =~= seqs_view(before).push(w));
            assert(seqs_view(before) + (seq![w] + words(s@.skip(i as int))) =~= seqs_view(r@)
                + words(s@.skip(i as int)));
        }
    }
    assert(s@.skip(i as int) =~= seq![]);
    assert(words(s@.skip(i as int)) == Seq::<Seq<char>>::empty());
    assert(seqs_view(r@) + words(s@.skip(i as int)) =~= seqs_view(r@));
    r
}

/// The lines joined into one text, each followed by a line ending
/// (`lines.join("\n") + "\n"` for a non-empty list; empty for no lines).
pub open spec fn unlines(ls: Seq<Seq<char>>) -> Seq<char>
    decreases ls.len(),
{
    if ls.len() == 0 {
        seq![]
    } else {
        unlines(ls.drop_last()) + ls.last() + seq!['\n']
    }
}

/// Join lines into a text, each followed by `\n`.
pub fn join_lines(ls: &[Vec<char>]) -> (s: String)
    ensures
        s@ == unlines(seqs_view(ls@)),
{
    let ghost lv = seqs_view(ls@);
    let mut s = String::new();
    assert(lv.take(0) =~= seq![]);
    for i in 0..ls.len()
        invariant
            lv == seqs_view(ls@),
            s@ == unlines(lv.take(i as int)),
    {
        push_chars(&mut s, &ls[i]);
        push_char(&mut s, '\n');
        assert(lv.take(i + 1).drop_last() =~= lv.take(i as int));
        assert(lv.take(i + 1).last() == ls@[i as int]@);
    }
    assert(lv.take(ls.len() as int) =~= lv);
    s
}

/// A copy of `v`.
pub fn copy_chars(v: &[char]) -> (r: Vec<char>)
    ensures
        r@ == v@,
{
    let r = sub_chars(v, 0, v.len());
    assert(r@ =~= v@);
    r
}

} // verus!
