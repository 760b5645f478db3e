//! Docker-compose port declarations: the shape the allocator needs from a
//! compose file, and the rules that read it.
//!
//! The YAML itself is parsed by the binary into a [`ComposeDoc`]; from
//! there on everything is decided here: which port specs are understood,
//! what is warned about, how an override file merges over its base, and
//! what gets allocated.

use vstd::prelude::*;

use crate::date::{all_digits, digits_value, is_digit, parse_unsigned, pow10};
use crate::allocator::{alloc_post, alloc_within_lock, BASE_PORT, MAX_PORT};
use crate::error::SpoutError;
use crate::registry::Registry;
use crate::protocol::Protocol;
use crate::strmap::{sorted_strict, StrMap};
use crate::text::{chars_of, dec, lemma_lex_asymmetric, lemma_lex_irreflexive, lex_lt, push_dec, push_line, string_of, sub_chars, views};

verus! {

/// One entry of a service's `ports:` list, as the YAML holds it.
#[derive(Debug)]
pub enum PortSpec {
    /// An unquoted number: `- 8080`.
    Numeric(u64),
    /// The short syntax: `"[[host_ip:]host_port:]container_port[/protocol]"`.
    Short(String),
    /// The long syntax: `target:` and an optional `protocol:`.
    Long { target: Option<u16>, protocol: Option<String> },
}

/// A service's definition; only its ports matter here.
#[derive(Debug)]
pub struct ServiceDef {
    pub ports: Option<Vec<PortSpec>>,
}

/// A compose file: its services in name order.
#[derive(Debug)]
pub struct ComposeDoc {
    pub services: Vec<(String, ServiceDef)>,
}

/// A container port and its protocol.
#[derive(Debug, Clone, Copy, PartialEq, Eq, Structural)]
pub struct ComposePort {
    pub container_port: u16,
    pub protocol: Protocol,
}

/// A service with at least one understood port, in declaration order.
#[derive(Debug, PartialEq, Eq)]
pub struct ComposeService {
    pub name: String,
    pub ports: Vec<ComposePort>,
}

pub open spec fn ascii_lower(c: char) -> char {
    if 'A' <= c && c <= 'Z' {
        ((c as u32) + 32) as char
    } else {
        c
    }
}

/// `str::eq_ignore_ascii_case`.
pub open spec fn eq_ignore_case(a: Seq<char>, b: Seq<char>) -> bool {
    a.len() == b.len() && forall|i: int| 0 <= i < a.len() ==> ascii_lower(#[trigger] a[i]) == ascii_lower(b[i])
}

/// Index of the last `c` in `s`, or -1.
pub open spec fn last_index_of(s: Seq<char>, c: char) -> int
    decreases s.len(),
{
    if s.len() == 0 {
        -1
    } else if s.last() == c {
        s.len() - 1
    } else {
        last_index_of(s.drop_last(), c)
    }
}

/// What `str::parse::<u16>` accepts.
pub open spec fn u16_value(s: Seq<char>) -> Option<u16> {
    match parse_unsigned(s) {
        Some(v) => if v <= 65535 {
            Some(v as u16)
        } else {
            None
        },
        None => None,
    }
}

/// The short syntax: an optional `/tcp` or `/udp` suffix (any case; any
/// other suffix is not understood), then the container port after the
/// last `:`. Ranges and non-numbers are not understood.
pub open spec fn short_port(s: Seq<char>) -> Option<ComposePort> {
    let k = last_index_of(s, '/');
    let left = if k < 0 { s } else { s.subrange(0, k) };
    let proto: Option<Protocol> = if k < 0 {
        Some(Protocol::Tcp)
    } else if eq_ignore_case(s.subrange(k + 1, s.len() as int), "udp"@) {
        Some(Protocol::Udp)
    } else if eq_ignore_case(s.subrange(k + 1, s.len() as int), "tcp"@) {
        Some(Protocol::Tcp)
    } else {
        None
    };
    let token = left.subrange(last_index_of(left, ':') + 1, left.len() as int);
    match (proto, u16_value(token)) {
        (Some(p), Some(v)) => Some(ComposePort { container_port: v, protocol: p }),
        _ => None,
    }
}

/// The port a spec declares, if understood: numbers must fit a port and
/// are TCP; the long syntax needs a `target` and is UDP only when its
/// `protocol` says so.
pub open spec fn spec_port(spec: PortSpec) -> Option<ComposePort> {
    match spec {
        PortSpec::Short(s) => short_port(s@),
        PortSpec::Numeric(n) => if n <= 65535 {
            Some(ComposePort { container_port: n as u16, protocol: Protocol::Tcp })
        } else {
            None
        },
        PortSpec::Long { target, protocol } => match target {
            Some(t) => Some(ComposePort {
                container_port: t,
                protocol: if protocol is Some && eq_ignore_case(protocol->0@, "udp"@) {
                    Protocol::Udp
                } else {
                    Protocol::Tcp
                },
            }),
            None => None,
        },
    }
}

/// The understood ports of `specs`, in order.
pub open spec fn understood_ports(specs: Seq<PortSpec>) -> Seq<ComposePort>
    decreases specs.len(),
{
    if specs.len() == 0 {
        Seq::empty()
    } else {
        let rest = understood_ports(specs.drop_last());
        match spec_port(specs.last()) {
            Some(p) => rest.push(p),
            None => rest,
        }
    }
}

/// The warning for the `number`-th (1-based) spec of `name`.
pub open spec fn unparseable_warning(name: Seq<char>, number: nat) -> Seq<char> {
    "'"@ + name + "' port spec #"@ + dec(number) + " is unparseable; skipping"@
}

/// One warning per spec of `specs` that is not understood, in order.
pub open spec fn spec_warnings(name: Seq<char>, specs: Seq<PortSpec>) -> Seq<Seq<char>>
    decreases specs.len(),
{
    if specs.len() == 0 {
        Seq::empty()
    } else {
        let rest = spec_warnings(name, specs.drop_last());
        if spec_port(specs.last()) is None {
            rest.push(unparseable_warning(name, specs.len()))
        } else {
            rest
        }
    }
}

/// `(name, ports)` of a parsed service.
pub open spec fn service_view(s: ComposeService) -> (Seq<char>, Seq<ComposePort>) {
    (s.name@, s.ports@)
}

pub open spec fn services_view(v: Seq<ComposeService>) -> Seq<(Seq<char>, Seq<ComposePort>)> {
    Seq::new(v.len(), |i: int| service_view(v[i]))
}

/// The services of a document that declare an understood port, in order.
pub open spec fn doc_services(svcs: Seq<(String, ServiceDef)>) -> Seq<(Seq<char>, Seq<ComposePort>)>
    decreases svcs.len(),
{
    if svcs.len() == 0 {
        Seq::empty()
    } else {
        let rest = doc_services(svcs.drop_last());
        let (name, def) = svcs.last();
        match def.ports {
            Some(v) => if understood_ports(v@).len() > 0 {
                rest.push((name@, understood_ports(v@)))
            } else {
                rest
            },
            None => rest,
        }
    }
}

/// The warnings of a document, service by service.
pub open spec fn doc_warnings(svcs: Seq<(String, ServiceDef)>) -> Seq<Seq<char>>
    decreases svcs.len(),
{
    if svcs.len() == 0 {
        Seq::empty()
    } else {
        let rest = doc_warnings(svcs.drop_last());
        let (name, def) = svcs.last();
        match def.ports {
            Some(v) => rest + spec_warnings(name@, v@),
            None => rest,
        }
    }
}

/// `str::eq_ignore_ascii_case` on `cs[from..]` against a lower-case word.
fn tail_is(cs: &Vec<char>, from: usize, word: &str) -> (r: bool)
    requires
        from <= cs.len(),
        forall|i: int| 0 <= i < word@.len() ==> ascii_lower(#[trigger] word@[i]) == word@[i],
    ensures
        r == eq_ignore_case(cs@.subrange(from as int, cs@.len() as int), word@),
{
    let w = chars_of(word);
    let ghost t = cs@.subrange(from as int, cs@.len() as int);
    if cs.len() - from != w.len() {
        return false;
    }
    let mut i: usize = 0;
    while i < w.len()
        invariant
            w@ == word@,
            t == cs@.subrange(from as int, cs@.len() as int),
            from <= cs.len(),
            cs.len() - from == w.len(),
            i <= w.len(),
            forall|j: int| 0 <= j < word@.len() ==> ascii_lower(#[trigger] word@[j]) == word@[j],
            forall|j: int| 0 <= j < i ==> ascii_lower(#[trigger] t[j]) == ascii_lower(w@[j]),
        decreases w.len() - i,
    {
        let c = cs[from + i];
        let l = if 'A' <= c && c <= 'Z' {
            ((c as u32 + 32) as u8) as char
        } else {
            c
        };
        assert(l == ascii_lower(c)) by {
            if 'A' <= c && c <= 'Z' {
                assert(((c as u32 + 32) as u8) as u32 == (c as u32) + 32);
            }
        }
        assert(t[i as int] == c);
        if l != w[i] {
            assert(ascii_lower(w@[i as int]) == w@[i as int]);
            return false;
        }
        i = i + 1;
    }
    true
}

pub proof fn lemma_last_index_of(s: Seq<char>, c: char)
    ensures
        -1 <= last_index_of(s, c) < s.len(),
        last_index_of(s, c) >= 0 ==> s[last_index_of(s, c)] == c,
        forall|j: int| last_index_of(s, c) < j < s.len() ==> s[j] != c,
    decreases s.len(),
{
    if s.len() > 0 && s.last() != c {
        lemma_last_index_of(s.drop_last(), c);
        assert forall|j: int| last_index_of(s, c) < j < s.len() implies s[j] != c by {
            if j < s.len() - 1 {
                assert(s.drop_last()[j] == s[j]);
            }
        }
    }
}

/// Index of the last `c` in `cs[..to]`.
fn rfind(cs: &Vec<char>, to: usize, c: char) -> (r: Option<usize>)
    requires
        to <= cs.len(),
    ensures
        match r {
            Some(i) => last_index_of(cs@.subrange(0, to as int), c) == i,
            None => last_index_of(cs@.subrange(0, to as int), c) == -1,
        },
{
    let ghost s = cs@.subrange(0, to as int);
    proof {
        lemma_last_index_of(s, c);
    }
    let mut k: usize = to;
    while k > 0
        invariant
            k <= to <= cs.len(),
            s == cs@.subrange(0, to as int),
            forall|j: int| k <= j < to ==> s[j] != c,
            -1 <= last_index_of(s, c) < s.len(),
            last_index_of(s, c) >= 0 ==> s[last_index_of(s, c)] == c,
            forall|j: int| last_index_of(s, c) < j < s.len() ==> s[j] != c,
        decreases k,
    {
        if cs[k - 1] == c {
            assert(s[k - 1] == c);
            return Some(k - 1);
        }
        k = k - 1;
    }
    None
}

proof fn lemma_digits_nonneg(s: Seq<char>)
    requires
        all_digits(s),
    ensures
        digits_value(s) >= 0,
    decreases s.len(),
{
    if s.len() > 0 {
        assert forall|i: int| 0 <= i < s.drop_last().len() implies is_digit(#[trigger] s.drop_last()[i]) by {
            assert(s.drop_last()[i] == s[i]);
        }
        lemma_digits_nonneg(s.drop_last());
    }
}

/// `str::parse::<u16>` on `cs[from..to]`.
fn parse_u16_in(cs: &Vec<char>, from: usize, to: usize) -> (r: Option<u16>)
    requires
        from <= to <= cs.len(),
    ensures
        match r {
            Some(v) => u16_value(cs@.subrange(from as int, to as int)) == Some(v),
            None => u16_value(cs@.subrange(from as int, to as int)) is None,
        },
{
    let ghost s = cs@.subrange(from as int, to as int);
    if to == from {
        return None;
    }
    let start = if to - from > 1 && cs[from] == '+' {
        from + 1
    } else {
        from
    };
    let ghost d = cs@.subrange(start as int, to as int);
    proof {
        if start == from + 1 {
            assert(s.drop_first() =~= d);
            assert(s[0] == cs@[from as int]);
        } else {
            assert(s =~= d);
            if s.len() > 1 {
                assert(s[0] == cs@[from as int]);
            }
        }
    }
    let mut v: u64 = 0;
    let mut big = false;
    let mut i = start;
    assert(cs@.subrange(start as int, start as int) =~= Seq::<char>::empty());
    while i < to
        invariant
            from <= start <= i <= to <= cs.len(),
            start == from || start == from + 1,
            d == cs@.subrange(start as int, to as int),
            s == cs@.subrange(from as int, to as int),
            start == from + 1 ==> s.len() > 1 && s[0] == '+' && s.drop_first() == d,
            start == from ==> s == d && !(s.len() > 1 && s[0] == '+'),
            all_digits(cs@.subrange(start as int, i as int)),
            !big ==> v == digits_value(cs@.subrange(start as int, i as int)) && v <= 65535,
            big ==> digits_value(cs@.subrange(start as int, i as int)) > 65535,
        decreases to - i,
    {
        let c = cs[i];
        let ghost pre = cs@.subrange(start as int, i as int);
        let ghost next = cs@.subrange(start as int, i as int + 1);
        if !('0' <= c && c <= '9') {
            assert(!all_digits(d)) by {
                assert(d[i - start] == c);
            }
            proof {
                if start == from + 1 {
                    assert(!is_digit(s[0]));
                    assert(!all_digits(s));
                }
            }
            return None;
        }
        proof {
            assert(next.drop_last() =~= pre);
            assert(next.last() == c);
            assert forall|j: int| 0 <= j < next.len() implies is_digit(#[trigger] next[j]) by {
                if j < next.len() - 1 {
                    assert(next[j] == pre[j]);
                }
            }
        }
        if !big {
            let digit = (c as u32 - '0' as u32) as u64;
            let nv = v * 10 + digit;
            if nv > 65535 {
                big = true;
            } else {
                v = nv;
            }
        } else {
            proof {
                lemma_digits_nonneg(pre);
                assert(digits_value(next) == digits_value(pre) * 10 + (c as int - '0' as int));
            }
        }
        i = i + 1;
    }
    assert(cs@.subrange(start as int, to as int) =~= d);
    if big {
        None
    } else {
        Some(v as u16)
    }
}

/// The short syntax of a port spec.
pub fn parse_short(s: &str) -> (r: Option<ComposePort>)
    ensures
        r == short_port(s@),
{
    proof {
        reveal_strlit("udp");
        reveal_strlit("tcp");
    }
    let cs = chars_of(s);
    let (left_end, protocol) = match rfind(&cs, cs.len(), '/') {
        Some(k) => {
            assert(cs@.subrange(0, cs@.len() as int) =~= cs@);
            proof {
                lemma_last_index_of(cs@, '/');
            }
            if tail_is(&cs, k + 1, "udp") {
                (k, Protocol::Udp)
            } else if tail_is(&cs, k + 1, "tcp") {
                (k, Protocol::Tcp)
            } else {
                return None;
            }
        },
        None => {
            assert(cs@.subrange(0, cs@.len() as int) =~= cs@);
            (cs.len(), Protocol::Tcp)
        },
    };
    let ghost left = cs@.subrange(0, left_end as int);
    proof {
        lemma_last_index_of(left, ':');
    }
    let start = match rfind(&cs, left_end, ':') {
        Some(c) => c + 1,
        None => 0,
    };
    proof {
        assert(cs@.subrange(start as int, left_end as int) =~= left.subrange(last_index_of(left, ':') + 1, left.len() as int));
    }
    match parse_u16_in(&cs, start, left_end) {
        Some(v) => Some(ComposePort { container_port: v, protocol }),
        None => None,
    }
}

/// The port a spec declares, if understood.
pub fn parse_port(spec: &PortSpec) -> (r: Option<ComposePort>)
    ensures
        r == spec_port(*spec),
{
    proof {
        reveal_strlit("udp");
    }
    match spec {
        PortSpec::Short(s) => parse_short(s.as_str()),
        PortSpec::Numeric(n) => if *n <= 65535 {
            Some(ComposePort { container_port: *n as u16, protocol: Protocol::Tcp })
        } else {
            None
        },
        PortSpec::Long { target, protocol } => match target {
            Some(t) => {
                let p = match protocol {
                    Some(p) => {
                        let cs = chars_of(p.as_str());
                        if tail_is(&cs, 0, "udp") {
                            Protocol::Udp
                        } else {
                            Protocol::Tcp
                        }
                    },
                    None => Protocol::Tcp,
                };
                proof {
                    if protocol is Some {
                        assert(protocol->0@.subrange(0, protocol->0@.len() as int) =~= protocol->0@);
                    }
                }
                Some(ComposePort { container_port: *t, protocol: p })
            },
            None => None,
        },
    }
}

/// The understood ports of a service, with a warning naming each spec that
/// is not understood; `None` when no port is understood.
pub fn service_entry(name: &String, def: &ServiceDef, warnings: &mut Vec<String>) -> (r: Option<ComposeService>)
    ensures
        match def.ports {
            Some(v) => views(final(warnings)@) == views(old(warnings)@) + spec_warnings(name@, v@),
            None => final(warnings)@ == old(warnings)@,
        },
        match def.ports {
            Some(v) => if understood_ports(v@).len() > 0 {
                r matches Some(s) && service_view(s) == (name@, understood_ports(v@))
            } else {
                r is None
            },
            None => r is None,
        },
{
    let specs = match &def.ports {
        Some(v) => v,
        None => return None,
    };
    let ghost start = views(warnings@);
    let mut ports: Vec<ComposePort> = Vec::new();
    let mut i: usize = 0;
    while i < specs.len()
        invariant
            i <= specs@.len(),
            ports@ == understood_ports(specs@.subrange(0, i as int)),
            views(warnings@) == start + spec_warnings(name@, specs@.subrange(0, i as int)),
        decreases specs@.len() - i,
    {
        assert(specs@.subrange(0, i as int + 1).drop_last() =~= specs@.subrange(0, i as int));
        match parse_port(&specs[i]) {
            Some(p) => {
                ports.push(p);
            },
            None => {
                let mut w = String::from_str("'");
                w.append(name.as_str());
                w.append("' port spec #");
                push_dec(&mut w, (i as u64) + 1);
                w.append(" is unparseable; skipping");
                assert(w@ =~= unparseable_warning(name@, (i + 1) as nat));
                push_line(warnings, w);
                assert(views(warnings@) =~= start + spec_warnings(name@, specs@.subrange(0, i as int + 1)));
            },
        }
        i = i + 1;
    }
    assert(specs@.subrange(0, specs@.len() as int) =~= specs@);
    if ports.len() == 0 {
        return None;
    }
    Some(ComposeService { name: name.clone(), ports })
}

/// The services of a compose document that declare an understood port,
/// and the warnings for the specs that are not understood.
pub fn parse(doc: &ComposeDoc) -> (r: (Vec<ComposeService>, Vec<String>))
    ensures
        services_view(r.0@) == doc_services(doc.services@),
        views(r.1@) == doc_warnings(doc.services@),
{
    let mut services: Vec<ComposeService> = Vec::new();
    let mut warnings: Vec<String> = Vec::new();
    let mut i: usize = 0;
    while i < doc.services.len()
        invariant
            i <= doc.services@.len(),
            services_view(services@) == doc_services(doc.services@.subrange(0, i as int)),
            views(warnings@) == doc_warnings(doc.services@.subrange(0, i as int)),
        decreases doc.services@.len() - i,
    {
        assert(doc.services@.subrange(0, i as int + 1).drop_last() =~= doc.services@.subrange(0, i as int));
        let (name, def) = &doc.services[i];
        let ghost before = services@;
        match service_entry(name, def, &mut warnings) {
            Some(s) => {
                services.push(s);
                assert(services_view(services@) =~= services_view(before).push(service_view(services@.last())));
            },
            None => {},
        }
        i = i + 1;
    }
    assert(doc.services@.subrange(0, doc.services@.len() as int) =~= doc.services@);
    (services, warnings)
}


/// The ports the last of `all` named `k` declares, if any.
pub open spec fn last_ports(all: Seq<(Seq<char>, Seq<ComposePort>)>, k: Seq<char>) -> Option<Seq<ComposePort>>
    decreases all.len(),
{
    if all.len() == 0 {
        None
    } else if all.last().0 == k {
        Some(all.last().1)
    } else {
        last_ports(all.drop_last(), k)
    }
}

/// `merged` holds, in name order and once each, every service named in
/// `all`, with the ports of the last declaration of it.
pub open spec fn is_merge_of(merged: Seq<(Seq<char>, Seq<ComposePort>)>, all: Seq<(Seq<char>, Seq<ComposePort>)>) -> bool {
    &&& sorted_strict(Seq::new(merged.len(), |i: int| merged[i].0))
    &&& forall|i: int| 0 <= i < merged.len() ==> last_ports(all, (#[trigger] merged[i]).0) == Some(merged[i].1)
    &&& forall|k: Seq<char>| #[trigger] last_ports(all, k) is Some ==> exists|i: int| 0 <= i < merged.len() && (#[trigger] merged[i]).0 == k
}

/// Adds `services` to `m`, a later service replacing an earlier one of the
/// same name.
fn add_services(m: &mut StrMap<Vec<ComposePort>>, services: Vec<ComposeService>, Ghost(prefix): Ghost<Seq<(Seq<char>, Seq<ComposePort>)>>)
    requires
        forall|k: Seq<char>| #[trigger] old(m).lookup(k) matches Some(v) ==> last_ports(prefix, k) == Some(v@),
        forall|k: Seq<char>| #[trigger] old(m).lookup(k) is None ==> last_ports(prefix, k) is None,
    ensures
        forall|k: Seq<char>| #[trigger] final(m).lookup(k) matches Some(v) ==> last_ports(prefix + services_view(services@), k) == Some(v@),
        forall|k: Seq<char>| #[trigger] final(m).lookup(k) is None ==> last_ports(prefix + services_view(services@), k) is None,
{
    let ghost all = services_view(services@);
    let mut rest = services;
    let ghost mut done: Seq<(Seq<char>, Seq<ComposePort>)> = prefix;
    let mut i: usize = 0;
    let ghost orig = rest@;
    let n = rest.len();
    assert(prefix + all.take(0) =~= prefix);
    assert(orig.subrange(0, n as int) =~= orig);
    while i < n
        invariant
            all == services_view(orig),
            n == orig.len(),
            i <= n,
            rest@ == orig.subrange(i as int, n as int),
            forall|k: Seq<char>| #[trigger] m.lookup(k) matches Some(v) ==> last_ports(prefix + all.take(i as int), k) == Some(v@),
            forall|k: Seq<char>| #[trigger] m.lookup(k) is None ==> last_ports(prefix + all.take(i as int), k) is None,
        decreases n - i,
    {
        let svc = rest.remove(0);
        assert(svc == orig[i as int]);
        assert(rest@ =~= orig.subrange(i as int + 1, n as int));
        let ghost before = *m;
        let ghost key = svc.name@;
        proof {
            assert((prefix + all.take(i as int + 1)).drop_last() =~= prefix + all.take(i as int));
            assert((prefix + all.take(i as int + 1)).last() == (svc.name@, svc.ports@));
        }
        m.insert(svc.name, svc.ports);
        proof {
            assert forall|k: Seq<char>| #[trigger] m.lookup(k) is Some implies last_ports(prefix + all.take(i + 1), k) == Some(m.lookup(k)->0@) by {
                if k != key {
                    assert(m.lookup(k) == before.lookup(k));
                }
            }
            assert forall|k: Seq<char>| #[trigger] m.lookup(k) is None implies last_ports(prefix + all.take(i + 1), k) is None by {
                if k != key {
                    assert(m.lookup(k) == before.lookup(k));
                }
            }
        }
        i = i + 1;
    }
    assert(all.take(n as int) =~= all);
}

/// The services of `m` as a list.
fn map_to_services(m: StrMap<Vec<ComposePort>>, Ghost(all): Ghost<Seq<(Seq<char>, Seq<ComposePort>)>>) -> (r: Vec<ComposeService>)
    requires
        forall|k: Seq<char>| #[trigger] m.lookup(k) matches Some(v) ==> last_ports(all, k) == Some(v@),
        forall|k: Seq<char>| #[trigger] m.lookup(k) is None ==> last_ports(all, k) is None,
    ensures
        is_merge_of(services_view(r@), all),
{
    proof {
        use_type_invariant(&m);
    }
    let ghost items = m.items();
    let ghost mm = m;
    let mut es = m.into_entries();
    let n = es.len();
    let mut out: Vec<ComposeService> = Vec::new();
    let mut i: usize = 0;
    assert(items.subrange(0, n as int) =~= items);
    while i < n
        invariant
            n == items.len(),
            es@ == items.subrange(i as int, n as int),
            items == mm.items(),
            mm.wf(),
            i <= n,
            out@.len() == i,
            forall|j: int| 0 <= j < i ==> service_view(#[trigger] out@[j]) == (items[j].0@, items[j].1@),
        decreases n - i,
    {
        let (name, ports) = es.remove(0);
        assert(es@ =~= items.subrange(i as int + 1, n as int));
        out.push(ComposeService { name, ports });
        i = i + 1;
    }
    proof {
        let v = services_view(out@);
        assert(Seq::new(v.len(), |i: int| v[i].0) =~= mm.keys());
        assert forall|i: int| 0 <= i < v.len() implies last_ports(all, (#[trigger] v[i]).0) == Some(v[i].1) by {
            mm.lemma_lookup_at(i);
        }
        assert forall|k: Seq<char>| #[trigger] last_ports(all, k) is Some implies exists|i: int| 0 <= i < v.len() && (#[trigger] v[i]).0 == k by {
            assert(mm.lookup(k) is Some);
            assert(mm.has(k));
            let i = choose|i: int| 0 <= i < mm.items().len() && #[trigger] mm.items()[i].0@ == k;
            assert(v[i].0 == k);
        }
    }
    out
}

/// `overlay` merged over `base`: every service of either, in name order,
/// a service of `overlay` replacing the one of `base` it shares a name with.
pub fn merge_services(base: Vec<ComposeService>, overlay: Vec<ComposeService>) -> (r: Vec<ComposeService>)
    ensures
        is_merge_of(services_view(r@), services_view(base@) + services_view(overlay@)),
{
    let ghost all = services_view(base@) + services_view(overlay@);
    let ghost b = services_view(base@);
    let ghost o = services_view(overlay@);
    let mut m: StrMap<Vec<ComposePort>> = StrMap::new();
    add_services(&mut m, base, Ghost(Seq::empty()));
    assert(Seq::<(Seq<char>, Seq<ComposePort>)>::empty() + b =~= b);
    add_services(&mut m, overlay, Ghost(b));
    map_to_services(m, Ghost(all))
}


/// The services of every document, file after file.
pub open spec fn chain_services(docs: Seq<ComposeDoc>) -> Seq<(Seq<char>, Seq<ComposePort>)>
    decreases docs.len(),
{
    if docs.len() == 0 {
        Seq::empty()
    } else {
        chain_services(docs.drop_last()) + doc_services(docs.last().services@)
    }
}

/// The warnings of every document, file after file.
pub open spec fn chain_warnings(docs: Seq<ComposeDoc>) -> Seq<Seq<char>>
    decreases docs.len(),
{
    if docs.len() == 0 {
        Seq::empty()
    } else {
        chain_warnings(docs.drop_last()) + doc_warnings(docs.last().services@)
    }
}

/// The services of a base file and its overrides, each later file's
/// services replacing the earlier ones of the same name; a single file is
/// taken as it is. No file at all is an error.
pub fn load_chain(docs: &Vec<ComposeDoc>) -> (r: Result<(Vec<ComposeService>, Vec<String>), SpoutError>)
    ensures
        docs@.len() == 0 ==> (r matches Err(SpoutError::ComposeNotFound(m)) && m@ == "no compose files to load"@),
        docs@.len() == 1 ==> (r matches Ok(x) && services_view(x.0@) == doc_services(docs@[0].services@)
            && views(x.1@) == doc_warnings(docs@[0].services@)),
        docs@.len() > 1 ==> (r matches Ok(x) && is_merge_of(services_view(x.0@), chain_services(docs@))
            && views(x.1@) == chain_warnings(docs@)),
{
    if docs.len() == 0 {
        return Err(SpoutError::ComposeNotFound(String::from_str("no compose files to load")));
    }
    if docs.len() == 1 {
        return Ok(parse(&docs[0]));
    }
    let mut m: StrMap<Vec<ComposePort>> = StrMap::new();
    let mut warnings: Vec<String> = Vec::new();
    let mut i: usize = 0;
    while i < docs.len()
        invariant
            i <= docs@.len(),
            forall|k: Seq<char>| #[trigger] m.lookup(k) matches Some(v) ==> last_ports(chain_services(docs@.subrange(0, i as int)), k) == Some(v@),
            forall|k: Seq<char>| #[trigger] m.lookup(k) is None ==> last_ports(chain_services(docs@.subrange(0, i as int)), k) is None,
            views(warnings@) == chain_warnings(docs@.subrange(0, i as int)),
        decreases docs@.len() - i,
    {
        assert(docs@.subrange(0, i as int + 1).drop_last() =~= docs@.subrange(0, i as int));
        let (services, more) = parse(&docs[i]);
        add_services(&mut m, services, Ghost(chain_services(docs@.subrange(0, i as int))));
        let mut j: usize = 0;
        let ghost before = views(warnings@);
        while j < more.len()
            invariant
                j <= more@.len(),
                views(warnings@) == before + views(more@).take(j as int),
            decreases more@.len() - j,
        {
            push_line(&mut warnings, more[j].clone());
            j = j + 1;
            assert(views(warnings@) =~= before + views(more@).take(j as int));
        }
        assert(views(more@).take(more@.len() as int) =~= views(more@));
        i = i + 1;
    }
    assert(docs@.subrange(0, docs@.len() as int) =~= docs@);
    Ok((map_to_services(m, Ghost(chain_services(docs@))), warnings))
}

/// One allocation of a compose run.
#[derive(Debug)]
pub struct Allocation {
    pub name: String,
    pub port: u16,
    pub protocol: Protocol,
    pub is_new: bool,
}

/// The warning for a service that declares more than one port.
pub open spec fn extra_ports_warning(service: Seq<char>, count: nat, first: u16) -> Seq<char> {
    "'"@ + service + "' declares "@ + dec(count) + " ports; only the first ("@ + dec(first as nat)
        + ") is allocated. Split it into separate compose services to register the others."@
}

/// The names (with protocols) a service's ports are allocated under, and
/// the warnings planning gives: a service's first port is allocated under
/// the service's name; further ports are not allocated, with a warning
/// naming the service.
pub open spec fn alloc_plan(service: Seq<char>, ports: Seq<ComposePort>) -> (Seq<(Seq<char>, Protocol)>, Seq<Seq<char>>) {
    if ports.len() == 0 {
        (Seq::empty(), Seq::empty())
    } else if ports.len() == 1 {
        (seq![(service, ports[0].protocol)], Seq::empty())
    } else {
        (seq![(service, ports[0].protocol)], seq![extra_ports_warning(service, ports.len(), ports[0].container_port)])
    }
}

pub open spec fn plan_view(v: Seq<(String, Protocol)>) -> Seq<(Seq<char>, Protocol)> {
    Seq::new(v.len(), |i: int| (v[i].0@, v[i].1))
}

/// The allocation plan of a service.
fn plan_service(service: &ComposeService) -> (r: (Vec<(String, Protocol)>, Vec<String>))
    ensures
        plan_view(r.0@) == alloc_plan(service.name@, service.ports@).0,
        views(r.1@) == alloc_plan(service.name@, service.ports@).1,
{
    let mut planned: Vec<(String, Protocol)> = Vec::new();
    let mut warnings: Vec<String> = Vec::new();
    if service.ports.len() == 0 {
        assert(plan_view(planned@) =~= Seq::<(Seq<char>, Protocol)>::empty());
        assert(views(warnings@) =~= Seq::<Seq<char>>::empty());
        return (planned, warnings);
    }
    let first = service.ports[0];
    planned.push((service.name.clone(), first.protocol));
    assert(plan_view(planned@) =~= seq![(service.name@, first.protocol)]);
    if service.ports.len() > 1 {
        let mut w = String::from_str("'");
        w.append(service.name.as_str());
        w.append("' declares ");
        push_dec(&mut w, service.ports.len() as u64);
        w.append(" ports; only the first (");
        push_dec(&mut w, first.container_port as u64);
        w.append(") is allocated. Split it into separate compose services to register the others.");
        assert(w@ =~= extra_ports_warning(service.name@, service.ports@.len(), first.container_port));
        push_line(&mut warnings, w);
        assert(views(warnings@) =~= seq![w@]);
    } else {
        assert(views(warnings@) =~= Seq::<Seq<char>>::empty());
    }
    (planned, warnings)
}


/// One of the first `i` allocations of a run is a fresh one of port `q` on
/// protocol `p`.
pub open spec fn fresh_before(allocs: Seq<Allocation>, i: int, q: u16, p: Protocol) -> bool
    decreases i,
{
    if i <= 0 {
        false
    } else {
        fresh_before(allocs, i - 1, q, p) || (allocs[i - 1].is_new && allocs[i - 1].port == q && allocs[i - 1].protocol == p)
    }
}

/// Port `q` is held on protocol `p` when the `i`-th allocation of a run
/// starting from `before` is made: by `before`, or by a fresh allocation
/// made earlier in the run.
pub open spec fn claimed_then(before: Registry, allocs: Seq<Allocation>, i: int, q: u16, p: Protocol) -> bool {
    before.claims(q, p) || fresh_before(allocs, i, q, p)
}

/// `allocs` are the allocations of the planned `(name, protocol)` pairs in
/// `plan`, made in `project` from `before` to `after`: each name holds its
/// port in `after`; a name registered in `before` kept its port and is not
/// new; a new one got a port in range that the probe reported free (which
/// one, `fresh_ports_lowest` says).
pub open spec fn allocations_follow<F: Fn(u16, Protocol) -> bool>(
    allocs: Seq<Allocation>,
    plan: Seq<(Seq<char>, Protocol)>,
    before: Registry,
    after: Registry,
    project: Seq<char>,
    is_free_on_os: F,
) -> bool {
    &&& allocs.len() == plan.len()
    &&& forall|i: int| 0 <= i < allocs.len() ==> {
        &&& (#[trigger] allocs[i]).name@ == plan[i].0
        &&& allocs[i].protocol == plan[i].1
        &&& after.entry_of(project, plan[i].0) matches Some(e) && e.port == allocs[i].port
        &&& (before.entry_of(project, plan[i].0) matches Some(e0) ==> !allocs[i].is_new && allocs[i].port == e0.port)
        &&& (allocs[i].is_new ==> before.entry_of(project, plan[i].0) is None && BASE_PORT <= allocs[i].port <= MAX_PORT
            && is_free_on_os.ensures((allocs[i].port, plan[i].1), true))
    }
}

/// Each fresh allocation of `allocs` (made for `plan` from `before`) got,
/// as `alloc` chooses it, the lowest port in range that nothing held on
/// its protocol at that point of the run and that the probe reported
/// free: the port was unclaimed then, and every lower unclaimed port was
/// reported in use.
pub open spec fn fresh_ports_lowest<F: Fn(u16, Protocol) -> bool>(
    allocs: Seq<Allocation>,
    plan: Seq<(Seq<char>, Protocol)>,
    before: Registry,
    is_free_on_os: F,
) -> bool {
    forall|i: int| 0 <= i < allocs.len() && (#[trigger] allocs[i]).is_new ==> {
        &&& !claimed_then(before, allocs, i, allocs[i].port, plan[i].1)
        &&& forall|q: u16| BASE_PORT <= q < allocs[i].port && !claimed_then(before, allocs, i, q, plan[i].1)
            ==> #[trigger] is_free_on_os.ensures((q, plan[i].1), false)
    }
}

/// The ports `after` holds are those `before` held and the fresh
/// allocations of the run.
pub open spec fn claims_after_run(before: Registry, after: Registry, allocs: Seq<Allocation>) -> bool {
    forall|q: u16, p: Protocol| #[trigger] after.claims(q, p) == claimed_then(before, allocs, allocs.len() as int, q, p)
}

/// In `after`, the port of each fresh allocation of `allocs` is held on
/// its protocol by that allocation's name in `project`, and by no other
/// registration.
pub open spec fn fresh_held_alone(after: Registry, allocs: Seq<Allocation>, project: Seq<char>) -> bool {
    forall|k: int, q: Seq<char>, t: Seq<char>|
        #![trigger allocs[k], after.entry_of(q, t)]
        0 <= k < allocs.len() && allocs[k].is_new ==> (
            (after.entry_of(q, t) matches Some(e) && e.port == allocs[k].port && e.protocol == allocs[k].protocol)
                <==> (q == project && t == allocs[k].name@))
}

proof fn lemma_claimed_then_prefix(before: Registry, a: Seq<Allocation>, b: Seq<Allocation>, i: int)
    requires
        0 <= i <= a.len(),
        i <= b.len(),
        forall|k: int| 0 <= k < i ==> a[k] == b[k],
    ensures
        forall|q: u16, p: Protocol| #[trigger] claimed_then(before, a, i, q, p) == claimed_then(before, b, i, q, p),
    decreases i,
{
    if i > 0 {
        lemma_claimed_then_prefix(before, a, b, i - 1);
        assert(a[i - 1] == b[i - 1]);
        assert forall|q: u16, p: Protocol| #[trigger] claimed_then(before, a, i, q, p) == claimed_then(before, b, i, q, p) by {
            assert(claimed_then(before, a, i - 1, q, p) == claimed_then(before, b, i - 1, q, p));
        }
    }
}

/// Every registration but those of `project` named in `plan` is unchanged,
/// and so is the history.
pub open spec fn only_plan_touched(plan: Seq<(Seq<char>, Protocol)>, before: Registry, after: Registry, project: Seq<char>) -> bool {
    &&& after.history@ == before.history@
    &&& forall|q: Seq<char>, t: Seq<char>| !(q == project && exists|j: int| 0 <= j < plan.len() && (#[trigger] plan[j]).0 == t)
        ==> #[trigger] after.entry_of(q, t) == before.entry_of(q, t)
}

/// Why a run over `plan` found no port for `sv`: `sv` is a planned name
/// that `before` did not hold in `project`, and the probe reported in use
/// every port of the range that `at` did not claim on its protocol.
pub open spec fn no_port_for<F: Fn(u16, Protocol) -> bool>(
    plan: Seq<(Seq<char>, Protocol)>,
    before: Registry,
    at: Registry,
    project: Seq<char>,
    sv: Seq<char>,
    is_free_on_os: F,
) -> bool {
    exists|j: int| 0 <= j < plan.len() && (#[trigger] plan[j]).0 == sv && before.entry_of(project, sv) is None
        && forall|q: u16| BASE_PORT <= q <= MAX_PORT && !at.claims(q, plan[j].1)
            ==> #[trigger] is_free_on_os.ensures((q, plan[j].1), false)
}

/// Every name of `plan` is already registered in `project`.
pub open spec fn plan_registered(plan: Seq<(Seq<char>, Protocol)>, reg: Registry, project: Seq<char>) -> bool {
    forall|j: int| 0 <= j < plan.len() ==> (#[trigger] reg.entry_of(project, plan[j].0)) is Some
}

/// One step of a run: allocating `nm` on `protocol` from `prev` to `r`
/// keeps the run's claims and its fresh ports as stated.
proof fn lemma_fresh_step<F: Fn(u16, Protocol) -> bool>(
    base: Registry,
    prev: Registry,
    r: Registry,
    a0: Seq<Allocation>,
    allocs: Seq<Allocation>,
    cur: Seq<(Seq<char>, Protocol)>,
    next: Seq<(Seq<char>, Protocol)>,
    project: Seq<char>,
    nm: Seq<char>,
    protocol: Protocol,
    port: u16,
    is_new: bool,
    f: F,
)
    requires
        a0.len() == cur.len(),
        fresh_ports_lowest(a0, cur, base, f),
        claims_after_run(base, prev, a0),
        alloc_post(prev, r, project, nm, protocol, f, Ok((port, is_new))),
        next == cur.push((nm, protocol)),
        allocs.len() == a0.len() + 1,
        forall|k: int| 0 <= k < a0.len() ==> allocs[k] == a0[k],
        allocs[a0.len() as int].port == port,
        allocs[a0.len() as int].protocol == protocol,
        allocs[a0.len() as int].is_new == is_new,
        allocs[a0.len() as int].name@ == nm,
        fresh_held_alone(prev, a0, project),
    ensures
        fresh_ports_lowest(allocs, next, base, f),
        claims_after_run(base, r, allocs),
        fresh_held_alone(r, allocs, project),
{
    let m = a0.len() as int;
    assert forall|k: int, q: Seq<char>, t: Seq<char>| 0 <= k < allocs.len() && (#[trigger] allocs[k]).is_new implies (
        (#[trigger] r.entry_of(q, t) matches Some(e) && e.port == allocs[k].port && e.protocol == allocs[k].protocol)
            <==> (q == project && t == allocs[k].name@)) by {
        if k < m {
            assert(allocs[k] == a0[k]);
            let nk = a0[k].name@;
            assert(prev.entry_of(project, nk) matches Some(e) && e.port == a0[k].port && e.protocol == a0[k].protocol);
            if is_new {
                assert(prev.claims(a0[k].port, a0[k].protocol));
                assert(prev.entry_of(project, nm) is None);
                assert(r.entry_of(project, nk) == prev.entry_of(project, nk));
                if !(q == project && t == nm) {
                    assert(r.entry_of(q, t) == prev.entry_of(q, t));
                    assert(prev.entry_of(q, t) == prev.entry_of(q, t));
                }
            } else {
                assert(r == prev);
                assert(prev.entry_of(q, t) == r.entry_of(q, t));
            }
        } else {
            assert(k == m);
            assert(is_new);
            if !(q == project && t == nm) {
                assert(r.entry_of(q, t) == prev.entry_of(q, t));
                if prev.entry_of(q, t) matches Some(e) && e.port == port && e.protocol == protocol {
                    assert(prev.claims(port, protocol));
                }
            }
        }
    }
    assert forall|j: int, q: u16, p: Protocol| 0 <= j <= m implies #[trigger] claimed_then(base, allocs, j, q, p)
        == claimed_then(base, a0, j, q, p) by {
        lemma_claimed_then_prefix(base, a0, allocs, j);
    }
    assert forall|q: u16, p: Protocol| #[trigger] r.claims(q, p) == claimed_then(base, allocs, m + 1, q, p) by {
        assert(prev.claims(q, p) == claimed_then(base, a0, m, q, p));
        assert(claimed_then(base, allocs, m, q, p) == claimed_then(base, a0, m, q, p));
        if is_new {
            if r.claims(q, p) && !(q == port && p == protocol) {
                let (x, y) = choose|x: Seq<char>, y: Seq<char>| #[trigger] r.entry_of(x, y) matches Some(e) && e.port == q && e.protocol == p;
                assert(!(x == project && y == nm));
                assert(r.entry_of(x, y) == prev.entry_of(x, y));
                assert(prev.claims(q, p));
            }
            if prev.claims(q, p) {
                let (x, y) = choose|x: Seq<char>, y: Seq<char>| #[trigger] prev.entry_of(x, y) matches Some(e) && e.port == q && e.protocol == p;
                assert(!(x == project && y == nm));
                assert(r.entry_of(x, y) == prev.entry_of(x, y));
            }
            if q == port && p == protocol {
                assert(r.entry_of(project, nm) matches Some(e) && e.port == q && e.protocol == p);
            }
            assert(claimed_then(base, allocs, m + 1, q, p) == (claimed_then(base, allocs, m, q, p)
                || (q == port && p == protocol)));
        } else {
            assert(r == prev);
            assert(claimed_then(base, allocs, m + 1, q, p) == claimed_then(base, allocs, m, q, p));
        }
    }
    assert forall|j: int| 0 <= j < allocs.len() && (#[trigger] allocs[j]).is_new implies {
        &&& !claimed_then(base, allocs, j, allocs[j].port, next[j].1)
        &&& forall|q: u16| BASE_PORT <= q < allocs[j].port && !claimed_then(base, allocs, j, q, next[j].1)
            ==> #[trigger] f.ensures((q, next[j].1), false)
    } by {
        if j < m {
            assert(allocs[j] == a0[j]);
            assert(next[j] == cur[j]);
        } else {
            assert(next[j] == (nm, protocol));
            assert forall|q: u16| BASE_PORT <= q < port && !claimed_then(base, allocs, m, q, protocol)
                implies #[trigger] f.ensures((q, protocol), false) by {
                assert(prev.claims(q, protocol) == claimed_then(base, a0, m, q, protocol));
            }
            assert(prev.claims(port, protocol) == claimed_then(base, a0, m, port, protocol));
        }
    }
}

/// Allocates each planned name in turn.
fn allocate_plan<F: Fn(u16, Protocol) -> bool>(
    r: &mut Registry,
    project: &str,
    planned: Vec<(String, Protocol)>,
    allocs: &mut Vec<Allocation>,
    is_free_on_os: &F,
    Ghost(base): Ghost<Registry>,
    Ghost(done): Ghost<Seq<(Seq<char>, Protocol)>>,
) -> (res: Result<(), SpoutError>)
    requires
        forall|p: u16, q: Protocol| is_free_on_os.requires((p, q)),
        allocations_follow(old(allocs)@, done, base, *old(r), project@, *is_free_on_os),
        only_plan_touched(done, base, *old(r), project@),
        claims_after_run(base, *old(r), old(allocs)@),
        fresh_ports_lowest(old(allocs)@, done, base, *is_free_on_os),
        fresh_held_alone(*old(r), old(allocs)@, project@),
    ensures
        res is Ok ==> allocations_follow(final(allocs)@, done + plan_view(planned@), base, *final(r), project@, *is_free_on_os)
            && only_plan_touched(done + plan_view(planned@), base, *final(r), project@)
            && claims_after_run(base, *final(r), final(allocs)@)
            && fresh_ports_lowest(final(allocs)@, done + plan_view(planned@), base, *is_free_on_os)
            && fresh_held_alone(*final(r), final(allocs)@, project@),
        res matches Err(e) ==> (e matches SpoutError::NoFreePortFound { service: sv, range_start, range_end }
            && range_start == BASE_PORT && range_end == MAX_PORT
            && no_port_for(done + plan_view(planned@), base, *final(r), project@, sv@, *is_free_on_os)),
{
    let ghost all = done + plan_view(planned@);
    let ghost pv = plan_view(planned@);
    let ghost orig = planned@;
    let mut rest = planned;
    let n = rest.len();
    let mut i: usize = 0;
    assert(orig.subrange(0, n as int) =~= orig);
    assert(done + pv.take(0) =~= done);
    while i < n
        invariant
            n == orig.len(),
            orig == planned@,
            pv == plan_view(orig),
            all == done + pv,
            i <= n,
            rest@ == orig.subrange(i as int, n as int),
            forall|p: u16, q: Protocol| is_free_on_os.requires((p, q)),
            allocations_follow(allocs@, done + pv.take(i as int), base, *r, project@, *is_free_on_os),
            only_plan_touched(done + pv.take(i as int), base, *r, project@),
            claims_after_run(base, *r, allocs@),
            fresh_ports_lowest(allocs@, done + pv.take(i as int), base, *is_free_on_os),
            fresh_held_alone(*r, allocs@, project@),
        decreases n - i,
    {
        let (name, protocol) = rest.remove(0);
        assert(rest@ =~= orig.subrange(i as int + 1, n as int));
        let ghost prev = *r;
        let ghost cur = done + pv.take(i as int);
        let ghost next = done + pv.take(i as int + 1);
        assert(next =~= cur.push((name@, protocol)));
        let (port, is_new) = match alloc_within_lock(r, project, name.as_str(), protocol, is_free_on_os) {
            Ok(x) => x,
            Err(e) => {
                proof {
                    let nm = name@;
                    if exists|k: int| 0 <= k < cur.len() && (#[trigger] cur[k]).0 == nm {
                        let k = choose|k: int| 0 <= k < cur.len() && (#[trigger] cur[k]).0 == nm;
                        assert(allocs@[k].name@ == cur[k].0);
                        assert(prev.entry_of(project@, nm) is Some);
                    }
                    assert(prev.entry_of(project@, nm) == base.entry_of(project@, nm));
                    let j = done.len() + i;
                    assert(pv.take(i as int + 1)[i as int] == pv[i as int]);
                    assert(all[j] == pv[i as int]);
                    assert(pv[i as int] == (nm, protocol));
                    assert(all[j] == (nm, protocol));
                    assert(no_port_for(all, base, *r, project@, nm, *is_free_on_os));
                }
                return Err(e);
            },
        };
        let ghost a0 = allocs@;
        let ghost nm = name@;
        proof {
            if exists|k: int| 0 <= k < cur.len() && (#[trigger] cur[k]).0 == nm {
                let k = choose|k: int| 0 <= k < cur.len() && (#[trigger] cur[k]).0 == nm;
                assert(a0[k].name@ == cur[k].0);
                assert(prev.entry_of(project@, nm) is Some);
                assert(!is_new);
                assert(*r == prev);
            } else {
                assert(prev.entry_of(project@, nm) == base.entry_of(project@, nm));
            }
            assert forall|j: int| 0 <= j < a0.len() implies #[trigger] r.entry_of(project@, cur[j].0) == prev.entry_of(project@, cur[j].0) by {
                assert(a0[j].name@ == cur[j].0);
                if cur[j].0 == nm {
                    assert(*r == prev);
                }
            }
        }
        allocs.push(Allocation { name, port, protocol, is_new });
        proof {
            lemma_fresh_step(base, prev, *r, a0, allocs@, cur, next, project@, nm, protocol, port, is_new, *is_free_on_os);
        }
        proof {
            assert forall|j: int| 0 <= j < allocs@.len() implies {
                &&& (#[trigger] allocs@[j]).name@ == next[j].0
                &&& allocs@[j].protocol == next[j].1
                &&& r.entry_of(project@, next[j].0) matches Some(e) && e.port == allocs@[j].port
                &&& (base.entry_of(project@, next[j].0) matches Some(e0) ==> !allocs@[j].is_new && allocs@[j].port == e0.port)
                &&& (allocs@[j].is_new ==> base.entry_of(project@, next[j].0) is None && BASE_PORT <= allocs@[j].port <= MAX_PORT
                    && is_free_on_os.ensures((allocs@[j].port, next[j].1), true))
            } by {
                if j < a0.len() {
                    assert(allocs@[j] == a0[j]);
                    assert(next[j] == cur[j]);
                    assert(a0[j].name@ == cur[j].0);
                    assert(r.entry_of(project@, cur[j].0) == prev.entry_of(project@, cur[j].0));
                } else {
                    assert(next[j] == (nm, protocol));
                    if exists|k: int| 0 <= k < cur.len() && (#[trigger] cur[k]).0 == nm {
                        let k = choose|k: int| 0 <= k < cur.len() && (#[trigger] cur[k]).0 == nm;
                        assert(a0[k].name@ == cur[k].0);
                    }
                }
            }
            assert forall|q: Seq<char>, t: Seq<char>| !(q == project@ && exists|j: int| 0 <= j < next.len() && (#[trigger] next[j]).0 == t)
                implies #[trigger] r.entry_of(q, t) == base.entry_of(q, t) by {
                if !(q == project@ && t == name@) {
                    assert(r.entry_of(q, t) == prev.entry_of(q, t));
                    if q == project@ {
                        assert forall|j: int| 0 <= j < cur.len() implies (#[trigger] cur[j]).0 != t by {
                            assert(next[j] == cur[j]);
                        }
                    }
                } else {
                    assert(next[next.len() - 1].0 == t);
                }
            }
        }
        i = i + 1;
    }
    assert(pv.take(n as int) =~= pv);
    Ok(())
}

/// Allocates a compose service's port: its first port, under the
/// service's name; further ports are left out with a warning naming the
/// service.
pub fn allocate_service<F: Fn(u16, Protocol) -> bool>(
    r: &mut Registry,
    project: &str,
    service: &ComposeService,
    is_free_on_os: &F,
) -> (res: Result<(Vec<Allocation>, Vec<String>), SpoutError>)
    requires
        forall|p: u16, q: Protocol| is_free_on_os.requires((p, q)),
    ensures
        ({
            let plan = alloc_plan(service.name@, service.ports@);
            match res {
                Ok((allocs, warnings)) => {
                    &&& views(warnings@) == plan.1
                    &&& allocations_follow(allocs@, plan.0, *old(r), *final(r), project@, *is_free_on_os)
                    &&& only_plan_touched(plan.0, *old(r), *final(r), project@)
                    &&& claims_after_run(*old(r), *final(r), allocs@)
                    &&& fresh_ports_lowest(allocs@, plan.0, *old(r), *is_free_on_os)
                    &&& fresh_held_alone(*final(r), allocs@, project@)
                },
                Err(e) => e matches SpoutError::NoFreePortFound { service: sv, range_start, range_end }
                    && range_start == BASE_PORT && range_end == MAX_PORT
                    && no_port_for(plan.0, *old(r), *final(r), project@, sv@, *is_free_on_os),
            }
        }),
        plan_registered(alloc_plan(service.name@, service.ports@).0, *old(r), project@) ==> res is Ok,
{
    let (planned, warnings) = plan_service(service);
    let ghost pv = plan_view(planned@);
    let mut allocs: Vec<Allocation> = Vec::new();
    proof {
        assert(Seq::<(Seq<char>, Protocol)>::empty() + pv =~= pv);
        assert forall|q: Seq<char>, t: Seq<char>| !(q == project@ && exists|j: int| 0 <= j < Seq::<(Seq<char>, Protocol)>::empty().len() && (#[trigger] Seq::<(Seq<char>, Protocol)>::empty()[j]).0 == t)
            implies #[trigger] r.entry_of(q, t) == old(r).entry_of(q, t) by {}
    }
    match allocate_plan(r, project, planned, &mut allocs, is_free_on_os, Ghost(*old(r)), Ghost(Seq::empty())) {
        Ok(()) => Ok((allocs, warnings)),
        Err(e) => {
            proof {
                assert(Seq::<(Seq<char>, Protocol)>::empty() + pv =~= pv);
            }
            Err(e)
        },
    }
}


proof fn lemma_fresh_before_has(allocs: Seq<Allocation>, k: int, i: int)
    requires
        0 <= i < k <= allocs.len(),
        allocs[i].is_new,
    ensures
        fresh_before(allocs, k, allocs[i].port, allocs[i].protocol),
    decreases k,
{
    if k - 1 > i {
        lemma_fresh_before_has(allocs, k - 1, i);
    }
}

/// A port a compose run allocates fresh is shared with nothing on its
/// protocol: afterwards the allocated service alone holds it, no
/// registration the run did not plan holds it, and no other fresh
/// allocation of the run got it.
pub proof fn law_compose_fresh_port_unshared<F: Fn(u16, Protocol) -> bool>(
    allocs: Seq<Allocation>,
    plan: Seq<(Seq<char>, Protocol)>,
    before: Registry,
    after: Registry,
    project: Seq<char>,
    is_free_on_os: F,
    i: int,
)
    requires
        allocations_follow(allocs, plan, before, after, project, is_free_on_os),
        only_plan_touched(plan, before, after, project),
        fresh_ports_lowest(allocs, plan, before, is_free_on_os),
        fresh_held_alone(after, allocs, project),
        0 <= i < allocs.len(),
        allocs[i].is_new,
    ensures
        forall|q: Seq<char>, t: Seq<char>|
            (#[trigger] after.entry_of(q, t) matches Some(e) && e.port == allocs[i].port && e.protocol == plan[i].1)
                <==> (q == project && t == allocs[i].name@),
        forall|q: Seq<char>, t: Seq<char>| !(q == project && exists|j: int| 0 <= j < plan.len() && (#[trigger] plan[j]).0 == t)
            ==> !(#[trigger] after.entry_of(q, t) matches Some(e) && e.port == allocs[i].port && e.protocol == plan[i].1),
        forall|k: int| 0 <= k < allocs.len() && k != i && (#[trigger] allocs[k]).is_new && plan[k].1 == plan[i].1
            ==> allocs[k].port != allocs[i].port,
{
    assert(!claimed_then(before, allocs, i, allocs[i].port, plan[i].1));
    assert(allocs[i].protocol == plan[i].1);
    assert forall|q: Seq<char>, t: Seq<char>|
        (#[trigger] after.entry_of(q, t) matches Some(e) && e.port == allocs[i].port && e.protocol == plan[i].1)
            <==> (q == project && t == allocs[i].name@) by {
        assert(allocs[i].is_new);
    }
    assert forall|q: Seq<char>, t: Seq<char>| !(q == project && exists|j: int| 0 <= j < plan.len() && (#[trigger] plan[j]).0 == t)
        implies !(#[trigger] after.entry_of(q, t) matches Some(e) && e.port == allocs[i].port && e.protocol == plan[i].1) by {
        assert(after.entry_of(q, t) == before.entry_of(q, t));
    }
    assert forall|k: int| 0 <= k < allocs.len() && k != i && (#[trigger] allocs[k]).is_new && plan[k].1 == plan[i].1
        implies allocs[k].port != allocs[i].port by {
        if k > i {
            lemma_fresh_before_has(allocs, k, i);
            assert(!claimed_then(before, allocs, k, allocs[k].port, plan[k].1));
        } else {
            lemma_fresh_before_has(allocs, i, k);
        }
    }
}

/// The allocation plans of `services`, one after another.
pub open spec fn plans_of(services: Seq<ComposeService>) -> Seq<(Seq<char>, Protocol)>
    decreases services.len(),
{
    if services.len() == 0 {
        Seq::empty()
    } else {
        plans_of(services.drop_last()) + alloc_plan(services.last().name@, services.last().ports@).0
    }
}

/// The plan warnings of `services`, one after another.
pub open spec fn plan_warnings_of(services: Seq<ComposeService>) -> Seq<Seq<char>>
    decreases services.len(),
{
    if services.len() == 0 {
        Seq::empty()
    } else {
        plan_warnings_of(services.drop_last()) + alloc_plan(services.last().name@, services.last().ports@).1
    }
}

/// Allocates the planned port of every service, appending the plan warnings to
/// `warnings`.
pub fn build_allocations<F: Fn(u16, Protocol) -> bool>(
    r: &mut Registry,
    project: &str,
    services: &Vec<ComposeService>,
    warnings: &mut Vec<String>,
    is_free_on_os: &F,
) -> (res: Result<Vec<Allocation>, SpoutError>)
    requires
        forall|p: u16, q: Protocol| is_free_on_os.requires((p, q)),
    ensures
        views(final(warnings)@) == views(old(warnings)@) + plan_warnings_of(services@),
        res matches Ok(allocs) ==> allocations_follow(allocs@, plans_of(services@), *old(r), *final(r), project@, *is_free_on_os)
            && only_plan_touched(plans_of(services@), *old(r), *final(r), project@)
            && claims_after_run(*old(r), *final(r), allocs@)
            && fresh_ports_lowest(allocs@, plans_of(services@), *old(r), *is_free_on_os)
            && fresh_held_alone(*final(r), allocs@, project@),
        res matches Err(e) ==> (e matches SpoutError::NoFreePortFound { service: sv, range_start, range_end }
            && range_start == BASE_PORT && range_end == MAX_PORT
            && no_port_for(plans_of(services@), *old(r), *final(r), project@, sv@, *is_free_on_os)),
        plan_registered(plans_of(services@), *old(r), project@) ==> res is Ok,
{
    let ghost w0 = views(warnings@);
    let mut planned: Vec<(String, Protocol)> = Vec::new();
    let mut i: usize = 0;
    while i < services.len()
        invariant
            i <= services@.len(),
            plan_view(planned@) == plans_of(services@.subrange(0, i as int)),
            views(warnings@) == w0 + plan_warnings_of(services@.subrange(0, i as int)),
        decreases services@.len() - i,
    {
        assert(services@.subrange(0, i as int + 1).drop_last() =~= services@.subrange(0, i as int));
        let (p, w) = plan_service(&services[i]);
        let ghost pv0 = plan_view(planned@);
        let mut j: usize = 0;
        while j < p.len()
            invariant
                j <= p@.len(),
                plan_view(planned@) == pv0 + plan_view(p@).take(j as int),
            decreases p@.len() - j,
        {
            let ghost before = planned@;
            planned.push((p[j].0.clone(), p[j].1));
            assert(plan_view(planned@) =~= plan_view(before).push((p@[j as int].0@, p@[j as int].1)));
            j = j + 1;
            assert(plan_view(planned@) =~= pv0 + plan_view(p@).take(j as int));
        }
        assert(plan_view(p@).take(p@.len() as int) =~= plan_view(p@));
        let ghost ws0 = views(warnings@);
        let mut j: usize = 0;
        while j < w.len()
            invariant
                j <= w@.len(),
                views(warnings@) == ws0 + views(w@).take(j as int),
            decreases w@.len() - j,
        {
            push_line(warnings, w[j].clone());
            j = j + 1;
            assert(views(warnings@) =~= ws0 + views(w@).take(j as int));
        }
        assert(views(w@).take(w@.len() as int) =~= views(w@));
        i = i + 1;
    }
    assert(services@.subrange(0, services@.len() as int) =~= services@);
    let ghost pv = plan_view(planned@);
    let ghost pl = planned@;
    let mut allocs: Vec<Allocation> = Vec::new();
    proof {
        assert(Seq::<(Seq<char>, Protocol)>::empty() + pv =~= pv);
    }
    match allocate_plan(r, project, planned, &mut allocs, is_free_on_os, Ghost(*old(r)), Ghost(Seq::empty())) {
        Ok(()) => Ok(allocs),
        Err(e) => {
            proof {
                assert(Seq::<(Seq<char>, Protocol)>::empty() + pv =~= pv);
            }
            Err(e)
        },
    }
}

/// The compose file a run reads, and the override file beside it.
#[derive(Debug)]
pub struct ComposeFiles {
    pub base: String,
    pub overlay: Option<String>,
}

/// The files of a run, as its summary names them.
pub open spec fn files_text(files: ComposeFiles) -> Seq<char> {
    match files.overlay {
        Some(o) => files.base@ + " + "@ + o@,
        None => files.base@,
    }
}

pub fn display_files(files: &ComposeFiles) -> (r: String)
    ensures
        r@ == files_text(*files),
{
    let mut r = files.base.clone();
    match &files.overlay {
        Some(o) => {
            r.append(" + ");
            r.append(o.as_str());
        },
        None => {},
    }
    r
}

/// How many of `allocs` are new.
pub open spec fn new_count(allocs: Seq<Allocation>) -> nat
    decreases allocs.len(),
{
    if allocs.len() == 0 {
        0
    } else {
        new_count(allocs.drop_last()) + if allocs.last().is_new { 1nat } else { 0nat }
    }
}

/// The longest allocation name, in UTF-8 bytes.
pub open spec fn widest_name(allocs: Seq<Allocation>) -> int
    decreases allocs.len(),
{
    if allocs.len() == 0 {
        0
    } else {
        let rest = widest_name(allocs.drop_last());
        let here = crate::format::byte_len(allocs.last().name@);
        if here > rest {
            here
        } else {
            rest
        }
    }
}

/// The summary of a compose run: a header counting the allocations (and,
/// when some already existed, how many are new), a blank line, then one
/// row per allocation.
pub open spec fn summary_text(files: ComposeFiles, allocs: Seq<Allocation>) -> Seq<char> {
    let total = allocs.len();
    let fresh = new_count(allocs);
    let header = if fresh == total {
        files_text(files) + " → "@ + dec(total) + " service"@ + (if total == 1 { Seq::<char>::empty() } else { "s"@ }) + " allocated."@
    } else {
        files_text(files) + " → "@ + dec(total) + " services ("@ + dec(fresh) + " new, "@ + dec((total - fresh) as nat) + " existing)."@
    };
    let w = widest_name(allocs) as nat;
    header + "\n\n"@ + crate::text::join(
        Seq::new(total, |i: int| "  "@ + crate::text::pad_right(allocs[i].name@, w) + "  "@ + dec(allocs[i].port as nat) + "  "@ + allocs[i].protocol.name()),
        "\n"@,
    )
}

pub fn format_compose_summary(files: &ComposeFiles, allocations: &Vec<Allocation>) -> (r: String)
    ensures
        r@ == summary_text(*files, allocations@),
{
    let total = allocations.len();
    let mut fresh: usize = 0;
    let mut width: usize = 0;
    let mut i: usize = 0;
    while i < total
        invariant
            total == allocations@.len(),
            i <= total,
            fresh == new_count(allocations@.subrange(0, i as int)),
            fresh <= i,
            width == widest_name(allocations@.subrange(0, i as int)),
        decreases total - i,
    {
        assert(allocations@.subrange(0, i as int + 1).drop_last() =~= allocations@.subrange(0, i as int));
        if allocations[i].is_new {
            fresh = fresh + 1;
        }
        let n = allocations[i].name.as_str().len();
        if n > width {
            width = n;
        }
        i = i + 1;
    }
    assert(allocations@.subrange(0, total as int) =~= allocations@);
    let mut r = display_files(files);
    r.append(" → ");
    push_dec(&mut r, total as u64);
    if fresh == total {
        r.append(" service");
        if total != 1 {
            r.append("s");
        }
        r.append(" allocated.");
    } else {
        r.append(" services (");
        push_dec(&mut r, fresh as u64);
        r.append(" new, ");
        push_dec(&mut r, (total - fresh) as u64);
        r.append(" existing).");
    }
    r.append("\n\n");
    let ghost w = width as nat;
    let mut rows: Vec<String> = Vec::new();
    let mut i: usize = 0;
    while i < total
        invariant
            total == allocations@.len(),
            i <= total,
            w == width,
            views(rows@) == Seq::new(i as nat, |j: int| "  "@ + crate::text::pad_right(allocations@[j].name@, w) + "  "@ + dec(allocations@[j].port as nat) + "  "@ + allocations@[j].protocol.name()),
        decreases total - i,
    {
        let a = &allocations[i];
        let mut l = String::from_str("  ");
        crate::text::push_padded(&mut l, a.name.as_str(), width);
        l.append("  ");
        push_dec(&mut l, a.port as u64);
        l.append("  ");
        l.append(a.protocol.as_str());
        push_line(&mut rows, l);
        i = i + 1;
        assert(views(rows@) =~= Seq::new(i as nat, |j: int| "  "@ + crate::text::pad_right(allocations@[j].name@, w) + "  "@ + dec(allocations@[j].port as nat) + "  "@ + allocations@[j].protocol.name()));
    }
    let body = crate::text::join_strings(&rows, "\n");
    r.append(body.as_str());
    assert(r@ =~= summary_text(*files, allocations@));
    r
}


/// `dir` joined with the file name `name`, as `Path::join` does it.
pub open spec fn join_path(dir: Seq<char>, name: Seq<char>) -> Seq<char> {
    if dir.len() == 0 {
        name
    } else if dir.last() == '/' {
        dir + name
    } else {
        dir + "/"@ + name
    }
}

pub fn join_dir(dir: &str, name: &str) -> (r: String)
    ensures
        r@ == join_path(dir@, name@),
{
    let cs = chars_of(dir);
    let mut r = String::from_str(dir);
    if cs.len() > 0 && cs[cs.len() - 1] != '/' {
        r.append("/");
    }
    r.append(name);
    proof {
        if dir@.len() == 0 {
            assert(r@ =~= name@);
        }
    }
    r
}

/// The base compose file names, in the order they are looked for.
pub open spec fn base_names() -> Seq<Seq<char>> {
    seq!["docker-compose.yml"@, "docker-compose.yaml"@, "compose.yml"@, "compose.yaml"@]
}

/// The override compose file names, in the order they are looked for.
pub open spec fn override_names() -> Seq<Seq<char>> {
    seq!["docker-compose.override.yml"@, "docker-compose.override.yaml"@, "compose.override.yml"@, "compose.override.yaml"@]
}

fn compose_filenames(overrides: bool) -> (r: Vec<&'static str>)
    ensures
        r@.len() == 4,
        forall|i: int| 0 <= i < 4 ==> (#[trigger] r@[i])@ == (if overrides { override_names() } else { base_names() })[i],
{
    let mut r: Vec<&'static str> = Vec::new();
    if overrides {
        r.push("docker-compose.override.yml");
        r.push("docker-compose.override.yaml");
        r.push("compose.override.yml");
        r.push("compose.override.yaml");
    } else {
        r.push("docker-compose.yml");
        r.push("docker-compose.yaml");
        r.push("compose.yml");
        r.push("compose.yaml");
    }
    r
}

/// The first of `names` in `cwd` that `is_file` reports a file.
pub fn find_existing<F: Fn(&str) -> bool>(cwd: &str, names: &Vec<&str>, is_file: &F) -> (r: Option<String>)
    requires
        forall|p: &str| is_file.requires((p,)),
    ensures
        match r {
            Some(p) => exists|k: int| 0 <= k < names@.len() && p@ == join_path(cwd@, (#[trigger] names@[k])@) && is_file_says(*is_file, p@, true)
                && forall|j: int| 0 <= j < k ==> #[trigger] is_file_says(*is_file, join_path(cwd@, names@[j]@), false),
            None => forall|j: int| 0 <= j < names@.len() ==> #[trigger] is_file_says(*is_file, join_path(cwd@, names@[j]@), false),
        },
{
    let mut i: usize = 0;
    while i < names.len()
        invariant
            i <= names@.len(),
            forall|p: &str| is_file.requires((p,)),
            forall|j: int| 0 <= j < i ==> #[trigger] is_file_says(*is_file, join_path(cwd@, names@[j]@), false),
        decreases names@.len() - i,
    {
        let c = join_dir(cwd, names[i]);
        let cs = c.as_str();
        if is_file(cs) {
            assert(is_file_says(*is_file, c@, true));
            return Some(c);
        }
        assert(is_file_says(*is_file, join_path(cwd@, names@[i as int]@), false));
        i = i + 1;
    }
    None
}

/// The probe `is_file` answered `answer` for some string holding `path`.
pub open spec fn is_file_says<F: Fn(&str) -> bool>(is_file: F, path: Seq<char>, answer: bool) -> bool {
    exists|p: &str| p@ == path && #[trigger] is_file.ensures((p,), answer)
}


/// `found` is what looking for `names` in `cwd` finds: the first one the
/// probe reported a file, every earlier one having been reported not one;
/// `None` when all were reported not files.
pub open spec fn found_first<F: Fn(&str) -> bool>(is_file: F, cwd: Seq<char>, names: Seq<Seq<char>>, found: Option<Seq<char>>) -> bool {
    match found {
        Some(p) => exists|k: int| 0 <= k < names.len() && p == join_path(cwd, #[trigger] names[k]) && is_file_says(is_file, p, true)
            && forall|j: int| 0 <= j < k ==> #[trigger] is_file_says(is_file, join_path(cwd, names[j]), false),
        None => forall|j: int| 0 <= j < names.len() ==> #[trigger] is_file_says(is_file, join_path(cwd, names[j]), false),
    }
}

/// The message when only an override file is found.
pub open spec fn override_only_text(overlay: Seq<char>) -> Seq<char> {
    "found override compose file "@ + overlay + " but no base; pass -f <PATH> to specify the base"@
}

/// The compose files of a run: `explicit` alone when given (it must be a
/// file); else the first base file name found in `cwd`, with the first
/// override file name found beside it. An override without a base, or no
/// file at all, is `ComposeNotFound`.
pub fn discover_compose<F: Fn(&str) -> bool>(cwd: &str, explicit: Option<&str>, is_file: &F) -> (r: Result<ComposeFiles, SpoutError>)
    requires
        forall|p: &str| is_file.requires((p,)),
    ensures
        match explicit {
            Some(p) => match r {
                Ok(f) => f.base@ == p@ && f.overlay is None && is_file_says(*is_file, p@, true),
                Err(e) => (e matches SpoutError::ComposeNotFound(m) && m@ == "compose file not found: "@ + p@)
                    && is_file_says(*is_file, p@, false),
            },
            None => match r {
                Ok(f) => found_first(*is_file, cwd@, base_names(), Some(f.base@))
                    && found_first(*is_file, cwd@, override_names(), match f.overlay {
                        Some(o) => Some(o@),
                        None => None,
                    }),
                Err(e) => found_first(*is_file, cwd@, base_names(), None) && (e matches SpoutError::ComposeNotFound(m) && (
                    (exists|o: Seq<char>| found_first(*is_file, cwd@, override_names(), Some(o)) && m@ == #[trigger] override_only_text(o))
                    || (found_first(*is_file, cwd@, override_names(), None)
                        && m@ == "no compose file found (looked for docker-compose.yml / .yaml / compose.yml / .yaml); pass -f <PATH> to override"@))),
            },
        },
{
    match explicit {
        Some(p) => {
            if is_file(p) {
                assert(is_file_says(*is_file, p@, true));
                Ok(ComposeFiles { base: p.to_owned(), overlay: None })
            } else {
                assert(is_file_says(*is_file, p@, false));
                let mut m = String::from_str("compose file not found: ");
                m.append(p);
                Err(SpoutError::ComposeNotFound(m))
            }
        },
        None => {
            let bases = compose_filenames(false);
            let overrides = compose_filenames(true);
            proof {
                assert(Seq::new(4, |i: int| bases@[i]@) =~= base_names());
                assert(Seq::new(4, |i: int| overrides@[i]@) =~= override_names());
            }
            let base = find_existing(cwd, &bases, is_file);
            let overlay = find_existing(cwd, &overrides, is_file);
            let ghost gb = base;
            let ghost go = overlay;
            proof {
                match gb {
                    Some(b) => {
                        let k = choose|k: int| 0 <= k < bases@.len() && b@ == join_path(cwd@, (#[trigger] bases@[k])@) && is_file_says(*is_file, b@, true)
                            && forall|j: int| 0 <= j < k ==> #[trigger] is_file_says(*is_file, join_path(cwd@, bases@[j]@), false);
                        assert(base_names()[k] == bases@[k]@);
                        assert forall|j: int| 0 <= j < k implies #[trigger] is_file_says(*is_file, join_path(cwd@, base_names()[j]), false) by {
                            assert(base_names()[j] == bases@[j]@);
                        }
                    },
                    None => {
                        assert forall|j: int| 0 <= j < base_names().len() implies #[trigger] is_file_says(*is_file, join_path(cwd@, base_names()[j]), false) by {
                            assert(base_names()[j] == bases@[j]@);
                        }
                    },
                }
                match go {
                    Some(o) => {
                        let k = choose|k: int| 0 <= k < overrides@.len() && o@ == join_path(cwd@, (#[trigger] overrides@[k])@) && is_file_says(*is_file, o@, true)
                            && forall|j: int| 0 <= j < k ==> #[trigger] is_file_says(*is_file, join_path(cwd@, overrides@[j]@), false);
                        assert(override_names()[k] == overrides@[k]@);
                        assert forall|j: int| 0 <= j < k implies #[trigger] is_file_says(*is_file, join_path(cwd@, override_names()[j]), false) by {
                            assert(override_names()[j] == overrides@[j]@);
                        }
                    },
                    None => {
                        assert forall|j: int| 0 <= j < override_names().len() implies #[trigger] is_file_says(*is_file, join_path(cwd@, override_names()[j]), false) by {
                            assert(override_names()[j] == overrides@[j]@);
                        }
                    },
                }
            }
            match (base, overlay) {
                (Some(b), o) => Ok(ComposeFiles { base: b, overlay: o }),
                (None, Some(o)) => {
                    let mut m = String::from_str("found override compose file ");
                    m.append(o.as_str());
                    m.append(" but no base; pass -f <PATH> to specify the base");
                    assert(m@ =~= override_only_text(o@));
                    Err(SpoutError::ComposeNotFound(m))
                },
                (None, None) => Err(SpoutError::ComposeNotFound(String::from_str(
                    "no compose file found (looked for docker-compose.yml / .yaml / compose.yml / .yaml); pass -f <PATH> to override",
                ))),
            }
        },
    }
}

/// What a compose run leaves for the user: the summary for stdout and the
/// warnings for stderr.
#[derive(Debug)]
pub struct ComposeOutcome {
    pub summary: String,
    pub warnings: Vec<String>,
}

/// The summary of a run whose files declare no port.
pub open spec fn no_ports_text(files: ComposeFiles) -> Seq<char> {
    files_text(files) + ": no services with port declarations."@
}

/// `v` is what loading `docs` (base first) gives: a single file as it is,
/// several merged, later files winning.
pub open spec fn loaded(docs: Seq<ComposeDoc>, v: Seq<(Seq<char>, Seq<ComposePort>)>) -> bool {
    if docs.len() == 1 {
        v == doc_services(docs[0].services@)
    } else {
        is_merge_of(v, chain_services(docs))
    }
}

/// The warnings loading `docs` gives.
pub open spec fn load_warnings(docs: Seq<ComposeDoc>) -> Seq<Seq<char>> {
    if docs.len() == 1 {
        doc_warnings(docs[0].services@)
    } else {
        chain_warnings(docs)
    }
}

/// A compose run that loaded `docs` as `svcs` and went from `before` to
/// `after`, answering `out`: no service with ports gives the no-ports
/// summary and changes nothing; otherwise every planned port is allocated
/// in `project` and summarised, and nothing else changes. The warnings are
/// those of loading, then those of planning.
pub open spec fn compose_run<F: Fn(u16, Protocol) -> bool>(
    docs: Seq<ComposeDoc>,
    files: ComposeFiles,
    project: Seq<char>,
    is_free_on_os: F,
    before: Registry,
    after: Registry,
    out: ComposeOutcome,
    svcs: Seq<ComposeService>,
) -> bool {
    &&& loaded(docs, services_view(svcs))
    &&& {
        ||| svcs.len() == 0 && out.summary@ == no_ports_text(files) && after == before
            && views(out.warnings@) == load_warnings(docs)
        ||| svcs.len() > 0 && views(out.warnings@) == load_warnings(docs) + plan_warnings_of(svcs)
            && only_plan_touched(plans_of(svcs), before, after, project)
            && exists|allocs: Seq<Allocation>| out.summary@ == #[trigger] summary_text(files, allocs)
                && allocations_follow(allocs, plans_of(svcs), before, after, project, is_free_on_os)
                && claims_after_run(before, after, allocs)
                && fresh_ports_lowest(allocs, plans_of(svcs), before, is_free_on_os)
                && fresh_held_alone(after, allocs, project)
    }
}

/// A successful compose run over `docs`.
pub open spec fn compose_done<F: Fn(u16, Protocol) -> bool>(
    docs: Seq<ComposeDoc>,
    files: ComposeFiles,
    project: Seq<char>,
    is_free_on_os: F,
    before: Registry,
    after: Registry,
    out: ComposeOutcome,
) -> bool {
    exists|svcs: Seq<ComposeService>| #[trigger] compose_run(docs, files, project, is_free_on_os, before, after, out, svcs)
}

/// A compose run over the parsed `docs` of `files` (base first): the
/// services are loaded and merged; none with ports gives the no-ports
/// summary and allocates nothing; otherwise every planned port is allocated in
/// `project` and summarised. The warnings are those of loading, then those
/// of planning.
pub fn compose<F: Fn(u16, Protocol) -> bool>(
    r: &mut Registry,
    project: &str,
    files: &ComposeFiles,
    docs: &Vec<ComposeDoc>,
    is_free_on_os: &F,
) -> (res: Result<ComposeOutcome, SpoutError>)
    requires
        forall|p: u16, q: Protocol| is_free_on_os.requires((p, q)),
    ensures
        docs@.len() == 0 ==> (res matches Err(SpoutError::ComposeNotFound(m)) && m@ == "no compose files to load"@),
        res matches Ok(out) ==> compose_done(docs@, *files, project@, *is_free_on_os, *old(r), *final(r), out),
        res matches Err(SpoutError::NoFreePortFound { service: sv, range_start, range_end }) ==> range_start == BASE_PORT
            && range_end == MAX_PORT && exists|svcs: Seq<ComposeService>| #[trigger] loaded(docs@, services_view(svcs))
                && no_port_for(plans_of(svcs), *old(r), *final(r), project@, sv@, *is_free_on_os),
        docs@.len() > 0 && (forall|svcs: Seq<ComposeService>| #[trigger] loaded(docs@, services_view(svcs))
            ==> plan_registered(plans_of(svcs), *old(r), project@)) ==> res is Ok,
        res matches Err(e) ==> docs@.len() == 0 || (e matches SpoutError::NoFreePortFound { .. }),
{
    let (services, mut warnings) = match load_chain(docs) {
        Ok(x) => x,
        Err(e) => return Err(e),
    };
    let ghost sv = services@;
    assert(loaded(docs@, services_view(sv)));
    assert(views(warnings@) == load_warnings(docs@));
    if services.len() == 0 {
        let mut summary = display_files(files);
        summary.append(": no services with port declarations.");
        assert(summary@ =~= no_ports_text(*files));
        let out = ComposeOutcome { summary, warnings };
        assert(compose_run(docs@, *files, project@, *is_free_on_os, *old(r), *r, out, sv));
        return Ok(out);
    }
    let allocations = match build_allocations(r, project, &services, &mut warnings, is_free_on_os) {
        Ok(a) => a,
        Err(e) => return Err(e),
    };
    let summary = format_compose_summary(files, &allocations);
    assert(summary@ == summary_text(*files, allocations@));
    let out = ComposeOutcome { summary, warnings };
    assert(compose_run(docs@, *files, project@, *is_free_on_os, *old(r), *r, out, sv));
    Ok(out)
}

/// The index of the entry of `m` named `k` (meaningful when there is one).
spec fn index_of_name(m: Seq<(Seq<char>, Seq<ComposePort>)>, k: Seq<char>) -> int {
    choose|j: int| 0 <= j < m.len() && m[j].0 == k
}

proof fn lemma_names_sorted(m: Seq<(Seq<char>, Seq<ComposePort>)>, all: Seq<(Seq<char>, Seq<ComposePort>)>, i: int, j: int)
    requires
        is_merge_of(m, all),
        0 <= i < j < m.len(),
    ensures
        lex_lt(m[i].0, m[j].0),
{
    let ks = Seq::new(m.len(), |x: int| m[x].0);
    assert(ks[i] == m[i].0 && ks[j] == m[j].0);
}

/// The `i`-th service of one merge is found in another merge of the same
/// declarations at index `i` or later.
proof fn lemma_merge_rank(m1: Seq<(Seq<char>, Seq<ComposePort>)>, m2: Seq<(Seq<char>, Seq<ComposePort>)>, all: Seq<(Seq<char>, Seq<ComposePort>)>, i: int)
    requires
        is_merge_of(m1, all),
        is_merge_of(m2, all),
        0 <= i < m1.len(),
    ensures
        0 <= index_of_name(m2, m1[i].0) < m2.len(),
        m2[index_of_name(m2, m1[i].0)].0 == m1[i].0,
        index_of_name(m2, m1[i].0) >= i,
    decreases i,
{
    assert(last_ports(all, m1[i].0) == Some(m1[i].1));
    assert(last_ports(all, m1[i].0) is Some);
    let b = index_of_name(m2, m1[i].0);
    if i > 0 {
        lemma_merge_rank(m1, m2, all, i - 1);
        let a = index_of_name(m2, m1[i - 1].0);
        lemma_names_sorted(m1, all, i - 1, i);
        if b < a {
            lemma_names_sorted(m2, all, b, a);
            lemma_lex_asymmetric(m1[i - 1].0, m1[i].0);
        } else if b == a {
            lemma_lex_irreflexive(m1[i].0);
        }
    }
}

/// The services of one merge all stand, in order, in another merge of the
/// same declarations.
proof fn lemma_merge_prefix(m1: Seq<(Seq<char>, Seq<ComposePort>)>, m2: Seq<(Seq<char>, Seq<ComposePort>)>, all: Seq<(Seq<char>, Seq<ComposePort>)>)
    requires
        is_merge_of(m1, all),
        is_merge_of(m2, all),
    ensures
        m1.len() <= m2.len(),
        forall|i: int| 0 <= i < m1.len() ==> #[trigger] m1[i] == m2[i],
{
    assert forall|i: int| 0 <= i < m1.len() implies i < m2.len() && #[trigger] m1[i] == m2[i] by {
        lemma_merge_rank(m1, m2, all, i);
        let j = index_of_name(m2, m1[i].0);
        lemma_merge_rank(m2, m1, all, j);
        let back = index_of_name(m1, m2[j].0);
        if back != i {
            let ks = Seq::new(m1.len(), |x: int| m1[x].0);
            assert(ks[back] == m1[back].0 && ks[i] == m1[i].0);
            crate::strmap::lemma_sorted_distinct(ks, back, i);
        }
        assert(last_ports(all, m2[j].0) == Some(m2[j].1));
    }
    if m1.len() > m2.len() {
        let i = m2.len() as int;
        lemma_merge_rank(m1, m2, all, i);
    }
}

/// Loading the same documents always gives the same services.
pub proof fn lemma_loaded_unique(docs: Seq<ComposeDoc>, v1: Seq<(Seq<char>, Seq<ComposePort>)>, v2: Seq<(Seq<char>, Seq<ComposePort>)>)
    requires
        loaded(docs, v1),
        loaded(docs, v2),
    ensures
        v1 == v2,
{
    if docs.len() != 1 {
        let all = chain_services(docs);
        lemma_merge_prefix(v1, v2, all);
        lemma_merge_prefix(v2, v1, all);
        assert(v1 =~= v2);
    }
}

/// The allocation plan depends only on the services' names and ports.
proof fn lemma_plans_by_view(s1: Seq<ComposeService>, s2: Seq<ComposeService>)
    requires
        services_view(s1) == services_view(s2),
    ensures
        plans_of(s1) == plans_of(s2),
        s1.len() == s2.len(),
    decreases s1.len(),
{
    assert(services_view(s1).len() == s1.len());
    assert(services_view(s2).len() == s2.len());
    if s1.len() > 0 {
        assert(services_view(s1.drop_last()) =~= services_view(s1).drop_last());
        assert(services_view(s2.drop_last()) =~= services_view(s2).drop_last());
        lemma_plans_by_view(s1.drop_last(), s2.drop_last());
        assert(services_view(s1)[s1.len() - 1] == services_view(s2)[s2.len() - 1]);
    }
}

/// Re-running a compose allocation over the same files keeps every port:
/// after one successful run, a second successful run changes no
/// registration's port and no history, and reports every allocation as
/// one that already existed.
pub proof fn law_compose_rerun_keeps_ports<F: Fn(u16, Protocol) -> bool>(
    docs: Seq<ComposeDoc>,
    files: ComposeFiles,
    project: Seq<char>,
    is_free_on_os: F,
    r0: Registry,
    r1: Registry,
    r2: Registry,
    out1: ComposeOutcome,
    out2: ComposeOutcome,
)
    requires
        compose_done(docs, files, project, is_free_on_os, r0, r1, out1),
        compose_done(docs, files, project, is_free_on_os, r1, r2, out2),
    ensures
        forall|q: Seq<char>, t: Seq<char>| #[trigger] r2.port_of(q, t) == r1.port_of(q, t),
        r2.history@ == r1.history@,
        out2.summary@ == no_ports_text(files) || exists|allocs: Seq<Allocation>| out2.summary@ == #[trigger] summary_text(files, allocs)
            && forall|i: int| 0 <= i < allocs.len() ==> !(#[trigger] allocs[i]).is_new,
{
    let s1 = choose|s: Seq<ComposeService>| #[trigger] compose_run(docs, files, project, is_free_on_os, r0, r1, out1, s);
    let s2 = choose|s: Seq<ComposeService>| #[trigger] compose_run(docs, files, project, is_free_on_os, r1, r2, out2, s);
    lemma_loaded_unique(docs, services_view(s1), services_view(s2));
    lemma_plans_by_view(s1, s2);
    if s2.len() > 0 {
        let plan = plans_of(s2);
        let a1 = choose|a: Seq<Allocation>| out1.summary@ == #[trigger] summary_text(files, a)
            && allocations_follow(a, plans_of(s1), r0, r1, project, is_free_on_os);
        let a2 = choose|a: Seq<Allocation>| out2.summary@ == #[trigger] summary_text(files, a)
            && allocations_follow(a, plan, r1, r2, project, is_free_on_os);
        assert forall|i: int| 0 <= i < a2.len() implies !(#[trigger] a2[i]).is_new by {
            assert(a1[i].name@ == plan[i].0);
        }
        assert forall|q: Seq<char>, t: Seq<char>| #[trigger] r2.port_of(q, t) == r1.port_of(q, t) by {
            if q == project && exists|j: int| 0 <= j < plan.len() && (#[trigger] plan[j]).0 == t {
                let j = choose|j: int| 0 <= j < plan.len() && (#[trigger] plan[j]).0 == t;
                assert(a1[j].name@ == plan[j].0);
                assert(a2[j].name@ == plan[j].0);
            } else {
                assert(r2.entry_of(q, t) == r1.entry_of(q, t));
            }
        }
    }
}

} // verus!
