//! Host entries: the options of one `Host` alias that this library models.

use vstd::prelude::*;
use crate::number::{decimal_string, push_decimal};
use crate::text::{push_char, push_chars};

verus! {

/// One alias of a `Host` block with the options read for it.
#[derive(Debug, Clone)]
pub struct HostEntry {
    pub alias: String,
    pub hostname: Option<String>,
    pub user: Option<String>,
    pub port: Option<u16>,
    pub identity_file: Option<String>,
}

/// The mathematical value of a `HostEntry`.
#[verifier::ext_equal]
pub struct HostView {
    pub alias: Seq<char>,
    pub hostname: Option<Seq<char>>,
    pub user: Option<Seq<char>>,
    pub port: Option<u16>,
    pub identity_file: Option<Seq<char>>,
}

/// The view of an optional string.
pub open spec fn opt_view(o: Option<String>) -> Option<Seq<char>> {
    match o {
        Some(s) => Some(s@),
        None => None,
    }
}

impl View for HostEntry {
    type V = HostView;

    open spec fn view(&self) -> HostView {
        HostView {
            alias: self.alias@,
            hostname: opt_view(self.hostname),
            user: opt_view(self.user),
            port: self.port,
            identity_file: opt_view(self.identity_file),
        }
    }
}

/// The views of a list of entries.
pub open spec fn hosts_view(v: Seq<HostEntry>) -> Seq<HostView> {
    v.map_values(|h: HostEntry| h@)
}

/// An entry with the given alias and no options.
pub open spec fn bare_host(alias: Seq<char>) -> HostView {
    HostView { alias, hostname: None, user: None, port: None, identity_file: None }
}

impl Default for HostEntry {
    fn default() -> (r: HostEntry)
        ensures
            r@ == bare_host(Seq::empty()),
    {
        HostEntry {
            alias: String::new(),
            hostname: None,
            user: None,
            port: None,
            identity_file: None,
        }
    }
}

/// `s` padded on the right with spaces to at least 20 characters (`{:<20}`).
pub open spec fn pad20(s: Seq<char>) -> Seq<char> {
    if s.len() >= 20 {
        s
    } else {
        s + Seq::new((20 - s.len()) as nat, |i: int| ' ')
    }
}

/// The optional value, or `-` when it is absent.
pub open spec fn or_dash(o: Option<Seq<char>>) -> Seq<char> {
    match o {
        Some(s) => s,
        None => seq!['-'],
    }
}

/// The port, or the ssh default 22 when it is absent.
pub open spec fn port_text(p: Option<u16>) -> Seq<char> {
    match p {
        Some(p) => decimal_string(p as nat),
        None => seq!['2', '2'],
    }
}

/// The one-line summary of an entry: `alias` padded to 20 columns, a space, then
/// `user@hostname:port`, with `-` for a missing user or hostname and 22 for a missing port.
pub open spec fn summary(h: HostView) -> Seq<char> {
    pad20(h.alias) + seq![' '] + or_dash(h.user) + seq!['@'] + or_dash(h.hostname) + seq![':']
        + port_text(h.port)
}

fn push_opt_or_dash(s: &mut String, o: &Option<String>)
    ensures
        final(s)@ == old(s)@ + or_dash(opt_view(*o)),
{
    match o {
        Some(v) => {
            let cs = crate::text::to_chars(v.as_str());
            push_chars(s, &cs);
        },
        None => {
            push_char(s, '-');
            assert(s@ =~= old(s)@ + seq!['-']);
        },
    }
}

impl HostEntry {
    /// The one-line summary shown in host lists (what the entry's `Display` writes).
    pub fn display(&self) -> (r: String)
        ensures
            r@ == summary(self@),
    {
        let alias = crate::text::to_chars(self.alias.as_str());
        let mut s = String::new();
        push_chars(&mut s, &alias);
        let mut n = alias.len();
        while n < 20
            invariant
                alias@ == self.alias@,
                alias.len() <= n,
                n <= 20 || n == alias.len(),
                s@ == alias@ + Seq::new((n - alias.len()) as nat, |i: int| ' '),
            decreases 20 - n,
        {
            push_char(&mut s, ' ');
            n += 1;
            assert(s@ =~= alias@ + Seq::new((n - alias.len()) as nat, |i: int| ' '));
        }
        assert(s@ =~= pad20(self.alias@));
        push_char(&mut s, ' ');
        push_opt_or_dash(&mut s, &self.user);
        push_char(&mut s, '@');
        push_opt_or_dash(&mut s, &self.hostname);
        push_char(&mut s, ':');
        let ghost before = s@;
        match self.port {
            Some(p) => push_decimal(&mut s, p),
            None => {
                push_char(&mut s, '2');
                push_char(&mut s, '2');
                assert(s@ =~= before + seq!['2', '2']);
            },
        }
        assert(s@ =~= summary(self@));
        s
    }
}

} // verus!
