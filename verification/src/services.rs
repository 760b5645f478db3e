//! Service-name helpers: the environment-variable name a service's port is
//! exported under, and the user's optional icon for a service.

use vstd::prelude::*;

use crate::strmap::StrMap;
use crate::text::{chars_of, find_char, find_first, lacks, lemma_lacks_cat, push_char, split_chars, split_on, string_of, sub_chars, trim, trim_chars};

verus! {

pub open spec fn is_ascii_alnum(c: char) -> bool {
    ('0' <= c && c <= '9') || ('a' <= c && c <= 'z') || ('A' <= c && c <= 'Z')
}

/// The character a service-name character becomes in its variable name:
/// ASCII letters upper-cased, ASCII digits kept, everything else `_`.
pub open spec fn env_char(c: char) -> char {
    if 'a' <= c && c <= 'z' {
        ((c as u32) - 32) as char
    } else if is_ascii_alnum(c) {
        c
    } else {
        '_'
    }
}

/// `mailpit-smtp` → `MAILPIT_SMTP_PORT`.
pub open spec fn env_var_spec(service: Seq<char>) -> Seq<char> {
    Seq::new(service.len(), |i: int| env_char(service[i])) + "_PORT"@
}

/// A variable name holds only ASCII letters, digits and `_`; in particular
/// no escape character.
pub proof fn lemma_env_var_escape_free(service: Seq<char>)
    ensures
        lacks(env_var_spec(service), '\u{1b}'),
{
    reveal_strlit("_PORT");
    let body = Seq::new(service.len(), |i: int| env_char(service[i]));
    assert forall|i: int| 0 <= i < body.len() implies body[i] != '\u{1b}' by {
        let c = service[i];
        if 'a' <= c && c <= 'z' {
            assert((((c as u32) - 32) as char) as u32 == (c as u32) - 32);
        }
    }
    let suffix = "_PORT"@;
    assert(suffix =~= seq!['_', 'P', 'O', 'R', 'T']);
    lemma_lacks_cat(body, suffix, '\u{1b}');
}

/// The environment-variable name a service's port is exported under.
pub fn env_var_name(service: &str) -> (r: String)
    ensures
        r@ == env_var_spec(service@),
{
    let cs = chars_of(service);
    let mut r = String::new();
    let mut i: usize = 0;
    while i < cs.len()
        invariant
            cs@ == service@,
            i <= cs.len(),
            r@ == Seq::new(i as nat, |j: int| env_char(service@[j])),
        decreases cs.len() - i,
    {
        let c = cs[i];
        let e = if 'a' <= c && c <= 'z' {
            ((c as u32 - 32) as u8) as char
        } else if ('0' <= c && c <= '9') || ('A' <= c && c <= 'Z') {
            c
        } else {
            '_'
        };
        assert(e == env_char(c)) by {
            if 'a' <= c && c <= 'z' {
                assert(((c as u32 - 32) as u8) as u32 == (c as u32) - 32);
            }
        }
        push_char(&mut r, e);
        i = i + 1;
        assert(r@ =~= Seq::new(i as nat, |j: int| env_char(service@[j])));
    }
    r.append("_PORT");
    r
}

/// The `(service, icon)` pair one comma-separated piece of `SPOUT_ICONS`
/// names: `key=value`, split at the first `=`, both trimmed and non-empty.
pub open spec fn icon_pair(piece: Seq<char>) -> Option<(Seq<char>, Seq<char>)> {
    let p = trim(piece);
    let eq = find_first(p, '=');
    if p.len() == 0 || eq < 0 {
        None
    } else {
        let k = trim(p.subrange(0, eq));
        let v = trim(p.subrange(eq + 1, p.len() as int));
        if k.len() == 0 || v.len() == 0 {
            None
        } else {
            Some((k, v))
        }
    }
}

/// The icon the first `n` pieces assign to `service` (a later piece wins).
pub open spec fn icon_after(pieces: Seq<Seq<char>>, n: int, service: Seq<char>) -> Option<Seq<char>>
    decreases n,
{
    if n <= 0 {
        None
    } else {
        match icon_pair(pieces[n - 1]) {
            Some(kv) => if kv.0 == service {
                Some(kv.1)
            } else {
                icon_after(pieces, n - 1, service)
            },
            None => icon_after(pieces, n - 1, service),
        }
    }
}

/// The icon `SPOUT_ICONS`-style text `src` assigns to `service`.
pub open spec fn icon_for(src: Seq<char>, service: Seq<char>) -> Option<Seq<char>> {
    let pieces = split_on(src, ',');
    icon_after(pieces, pieces.len() as int, service)
}

/// The icon pair of one piece.
fn parse_icon_piece(piece: &Vec<char>) -> (r: Option<(String, String)>)
    ensures
        match r {
            Some(kv) => icon_pair(piece@) == Some((kv.0@, kv.1@)),
            None => icon_pair(piece@) is None,
        },
{
    let p = trim_chars(piece);
    if p.len() == 0 {
        return None;
    }
    let eq = match find_char(&p, '=') {
        Some(i) => i,
        None => return None,
    };
    proof {
        crate::text::lemma_find_first(p@, '=');
    }
    let k = trim_chars(&sub_chars(&p, 0, eq));
    let v = trim_chars(&sub_chars(&p, eq + 1, p.len()));
    if k.len() == 0 || v.len() == 0 {
        return None;
    }
    Some((string_of(&k), string_of(&v)))
}

/// Parses a `service=icon,service=icon` list. Pieces without `=`, or with
/// an empty key or value after trimming, are skipped; a later piece for the
/// same service wins.
pub fn parse_icons(src: &str) -> (r: StrMap<String>)
    ensures
        forall|s: Seq<char>| #[trigger] r.lookup(s) matches Some(v) ==> icon_for(src@, s) == Some(v@),
        forall|s: Seq<char>| #[trigger] r.lookup(s) is None ==> icon_for(src@, s) is None,
{
    let cs = chars_of(src);
    let pieces = split_chars(&cs, ',');
    let ghost ps = split_on(src@, ',');
    let mut m: StrMap<String> = StrMap::new();
    let mut i: usize = 0;
    while i < pieces.len()
        invariant
            cs@ == src@,
            ps == split_on(src@, ','),
            pieces@.len() == ps.len(),
            forall|j: int| 0 <= j < pieces@.len() ==> (#[trigger] pieces@[j])@ == ps[j],
            i <= pieces@.len(),
            forall|s: Seq<char>| #[trigger] m.lookup(s) matches Some(v) ==> icon_after(ps, i as int, s) == Some(v@),
            forall|s: Seq<char>| #[trigger] m.lookup(s) is None ==> icon_after(ps, i as int, s) is None,
        decreases pieces@.len() - i,
    {
        let ghost before = m;
        match parse_icon_piece(&pieces[i]) {
            Some((k, v)) => {
                let ghost kv = (k@, v@);
                m.insert(k, v);
                proof {
                    assert forall|s: Seq<char>| #[trigger] m.lookup(s) is Some implies icon_after(ps, i + 1, s) == Some(m.lookup(s)->0@) by {
                        if s != kv.0 {
                            assert(m.lookup(s) == before.lookup(s));
                        }
                    }
                    assert forall|s: Seq<char>| #[trigger] m.lookup(s) is None implies icon_after(ps, i + 1, s) is None by {
                        if s != kv.0 {
                            assert(m.lookup(s) == before.lookup(s));
                        }
                    }
                }
            },
            None => {},
        }
        i = i + 1;
    }
    m
}

/// The icon `icons` holds for `service`.
pub fn service_icon<'a>(icons: &'a StrMap<String>, service: &str) -> (r: Option<&'a String>)
    ensures
        match r {
            Some(v) => icons.lookup(service@) == Some(*v),
            None => icons.lookup(service@) is None,
        },
{
    icons.get(service)
}

} // verus!
