//! Rendering for `spout ls` and `spout whois` — the plain layout, the
//! history listing, and the primitives the rich layout shares with it.
//!
//! The plain layout is what scripts read whenever stdout is not an
//! interactive terminal; its shape is fixed byte for byte.

use std::collections::HashSet;

use vstd::prelude::*;

use crate::error::{port_text, push_port};
use crate::protocol::Protocol;
use crate::registry::{Entry, HistoryEntry, Registry, ServiceMap};
use crate::strmap::StrMap;
use crate::text::{chars_of, join, join_strings, pad_right, push_line, push_padded, string_of, trim_end, trim_end_chars, views};

verus! {

broadcast use vstd::std_specs::hash::group_hash_axioms;

/// `●` for a port bound on the operating system, `○` for a free one.
pub open spec fn glyph(bound: bool) -> Seq<char> {
    if bound {
        "●"@
    } else {
        "○"@
    }
}

/// The status glyph shared by every `ls` layout.
pub fn port_status_glyph(bound: bool) -> (r: &'static str)
    ensures
        r@ == glyph(bound),
{
    if bound {
        "●"
    } else {
        "○"
    }
}

/// Whether an `ls` render carries colour and icons: only on an interactive
/// terminal, without `--no-tui`, and with `NO_COLOR` unset.
pub fn should_colour(is_tty: bool, no_color: bool, no_tui: bool) -> (r: bool)
    ensures
        r == (is_tty && !no_color && !no_tui),
{
    is_tty && !no_color && !no_tui
}

/// The colour decision, and the user's service icons, carried into the
/// renderers. An inactive palette paints nothing and shows no icons.
pub struct Palette {
    active: bool,
    icons: StrMap<String>,
}

/// `s` wrapped in SGR `code` when `active`, else `s` itself.
pub open spec fn painted(active: bool, code: Seq<char>, s: Seq<char>) -> Seq<char> {
    if active {
        "\u{1b}["@ + code + "m"@ + s + "\u{1b}[0m"@
    } else {
        s
    }
}

impl Palette {
    pub closed spec fn is_active(&self) -> bool {
        self.active
    }

    pub closed spec fn icon_map(&self) -> StrMap<String> {
        self.icons
    }

    /// A palette without icons.
    pub fn new(active: bool) -> (r: Palette)
        ensures
            r.is_active() == active,
            forall|s: Seq<char>| !r.icon_map().has(s),
    {
        Palette { active, icons: StrMap::new() }
    }

    /// A palette with the user's icons (shown only when active).
    pub fn with_icons(active: bool, icons: StrMap<String>) -> (r: Palette)
        ensures
            r.is_active() == active,
            r.icon_map() == icons,
    {
        Palette { active, icons }
    }

    pub fn active(&self) -> (r: bool)
        ensures
            r == self.is_active(),
    {
        self.active
    }

    pub fn icons(&self) -> (r: &StrMap<String>)
        ensures
            *r == self.icon_map(),
    {
        &self.icons
    }

    /// `s` wrapped in SGR `code` when active; one reset ends it.
    pub fn paint(&self, code: &str, s: &str) -> (r: String)
        ensures
            r@ == painted(self.is_active(), code@, s@),
    {
        if self.active {
            let mut r = String::from_str("\u{1b}[");
            r.append(code);
            r.append("m");
            r.append(s);
            r.append("\u{1b}[0m");
            r
        } else {
            s.to_owned()
        }
    }
}

/// The entries of `items` on `protocol`, in their order.
pub open spec fn on_protocol(items: Seq<(String, Entry)>, protocol: Protocol) -> Seq<(String, Entry)>
    decreases items.len(),
{
    if items.len() == 0 {
        items
    } else if items.last().1.protocol == protocol {
        on_protocol(items.drop_last(), protocol).push(items.last())
    } else {
        on_protocol(items.drop_last(), protocol)
    }
}

/// Display order of a project's services: TCP rows before UDP rows, each
/// group in name order.
pub open spec fn display_order(m: ServiceMap) -> Seq<(String, Entry)> {
    on_protocol(m.items(), Protocol::Tcp) + on_protocol(m.items(), Protocol::Udp)
}

/// The services of a project in display order.
pub fn sorted_services(services: &ServiceMap) -> (r: Vec<&(String, Entry)>)
    ensures
        r@.len() == display_order(*services).len(),
        forall|i: int| 0 <= i < r@.len() ==> *(#[trigger] r@[i]) == display_order(*services)[i],
{
    let es = services.entries();
    let mut r: Vec<&(String, Entry)> = Vec::new();
    let mut i: usize = 0;
    while i < es.len()
        invariant
            es@ == services.items(),
            i <= es@.len(),
            r@.len() == on_protocol(es@.subrange(0, i as int), Protocol::Tcp).len(),
            forall|j: int| 0 <= j < r@.len() ==> *(#[trigger] r@[j]) == on_protocol(es@.subrange(0, i as int), Protocol::Tcp)[j],
        decreases es@.len() - i,
    {
        assert(es@.subrange(0, i as int + 1).drop_last() =~= es@.subrange(0, i as int));
        if es[i].1.protocol == Protocol::Tcp {
            r.push(&es[i]);
        }
        i = i + 1;
    }
    assert(es@.subrange(0, es@.len() as int) =~= es@);
    let ghost tcp = on_protocol(es@, Protocol::Tcp);
    let mut i: usize = 0;
    while i < es.len()
        invariant
            es@ == services.items(),
            tcp == on_protocol(es@, Protocol::Tcp),
            i <= es@.len(),
            r@.len() == tcp.len() + on_protocol(es@.subrange(0, i as int), Protocol::Udp).len(),
            forall|j: int| 0 <= j < r@.len() ==> *(#[trigger] r@[j]) == (tcp + on_protocol(es@.subrange(0, i as int), Protocol::Udp))[j],
        decreases es@.len() - i,
    {
        assert(es@.subrange(0, i as int + 1).drop_last() =~= es@.subrange(0, i as int));
        if es[i].1.protocol == Protocol::Udp {
            r.push(&es[i]);
        }
        i = i + 1;
    }
    assert(es@.subrange(0, es@.len() as int) =~= es@);
    r
}

/// The byte length of `s` in UTF-8, as `str::len` reports it.
pub open spec fn byte_len(s: Seq<char>) -> int {
    (vstd::utf8::encode_utf8(s).len() as usize) as int
}

/// The longest name (in UTF-8 bytes) among `items`; 0 when empty.
pub open spec fn max_name_len(items: Seq<(String, Entry)>) -> int
    decreases items.len(),
{
    if items.len() == 0 {
        0
    } else {
        let rest = max_name_len(items.drop_last());
        let here = byte_len(items.last().0@);
        if here > rest {
            here
        } else {
            rest
        }
    }
}

/// One plain row: glyph, name padded to `width`, `port/protocol`, date.
pub open spec fn plain_row(name: Seq<char>, e: Entry, width: nat, bound: Set<u16>) -> Seq<char> {
    "  "@ + glyph(bound.contains(e.port)) + " "@ + pad_right(name, width) + "  "@ + port_text(e.port, e.protocol)
        + "  (since "@ + e.allocated@ + ")\n"@
}

pub open spec fn plain_rows(items: Seq<(String, Entry)>, width: nat, bound: Set<u16>) -> Seq<char>
    decreases items.len(),
{
    if items.len() == 0 {
        Seq::empty()
    } else {
        plain_rows(items.drop_last(), width, bound) + plain_row(items.last().0@, items.last().1, width, bound)
    }
}

/// The plain block for one project.
pub open spec fn plain_block(project: Seq<char>, services: Option<ServiceMap>, bound: Set<u16>) -> Seq<char> {
    let body = match services {
        Some(m) => if m.items().len() > 0 {
            plain_rows(display_order(m), max_name_len(m.items()) as nat, bound)
        } else {
            "  (no registrations)\n"@
        },
        None => "  (no registrations)\n"@,
    };
    trim_end(project + "\n"@ + body)
}

/// The longest name of a project's services, in UTF-8 bytes.
fn name_width(services: &ServiceMap) -> (w: usize)
    ensures
        w == max_name_len(services.items()),
{
    let es = services.entries();
    let mut w: usize = 0;
    let mut i: usize = 0;
    while i < es.len()
        invariant
            es@ == services.items(),
            i <= es@.len(),
            w == max_name_len(es@.subrange(0, i as int)),
        decreases es@.len() - i,
    {
        assert(es@.subrange(0, i as int + 1).drop_last() =~= es@.subrange(0, i as int));
        let n = es[i].0.as_str().len();
        if n > w {
            w = n;
        }
        i = i + 1;
    }
    assert(es@.subrange(0, es@.len() as int) =~= es@);
    w
}

/// One project in the plain layout.
pub fn project_block(project: &str, services: Option<&ServiceMap>, bound: &HashSet<u16>) -> (r: String)
    ensures
        r@ == plain_block(project@, match services {
            Some(m) => Some(*m),
            None => None,
        }, bound@),
{
    let mut out = String::from_str(project);
    out.append("\n");
    let ghost head = out@;
    match services {
        Some(s) if !s.is_empty() => {
            let width = name_width(s);
            let rows = sorted_services(s);
            let ghost order = display_order(*s);
            let mut i: usize = 0;
            while i < rows.len()
                invariant
                    rows@.len() == order.len(),
                    forall|j: int| 0 <= j < rows@.len() ==> *(#[trigger] rows@[j]) == order[j],
                    i <= rows@.len(),
                    out@ == head + plain_rows(order.subrange(0, i as int), width as nat, bound@),
                decreases rows@.len() - i,
            {
                let (svc, entry) = rows[i];
                let ghost before = out@;
                out.append("  ");
                out.append(port_status_glyph(bound.contains(&entry.port)));
                out.append(" ");
                push_padded(&mut out, svc.as_str(), width);
                out.append("  ");
                push_port(&mut out, entry.port, entry.protocol);
                out.append("  (since ");
                out.append(entry.allocated.as_str());
                out.append(")\n");
                proof {
                    assert(order.subrange(0, i as int + 1).drop_last() =~= order.subrange(0, i as int));
                    assert(out@ =~= before + plain_row(order[i as int].0@, order[i as int].1, width as nat, bound@));
                }
                i = i + 1;
            }
            assert(order.subrange(0, order.len() as int) =~= order);
        },
        _ => {
            out.append("  (no registrations)\n");
        },
    }
    let cs = chars_of(out.as_str());
    let t = trim_end_chars(&cs);
    string_of(&t)
}

/// Every project in the plain layout, in name order, separated by a blank
/// line; `(no registrations)` for an empty registry.
pub open spec fn plain_all(reg: Registry, bound: Set<u16>) -> Seq<char> {
    let ps = reg.projects.items();
    if ps.len() == 0 {
        "(no registrations)"@
    } else {
        join(Seq::new(ps.len(), |i: int| plain_block(ps[i].0@, Some(ps[i].1), bound)), "\n\n"@)
    }
}

/// The whole registry in the plain layout.
pub fn all(reg: &Registry, bound: &HashSet<u16>) -> (r: String)
    ensures
        r@ == plain_all(*reg, bound@),
{
    let ps = reg.projects.entries();
    if ps.len() == 0 {
        return String::from_str("(no registrations)");
    }
    let mut blocks: Vec<String> = Vec::new();
    let mut i: usize = 0;
    while i < ps.len()
        invariant
            ps@ == reg.projects.items(),
            i <= ps@.len(),
            views(blocks@) == Seq::new(i as nat, |j: int| plain_block(ps@[j].0@, Some(ps@[j].1), bound@)),
        decreases ps@.len() - i,
    {
        let b = project_block(ps[i].0.as_str(), Some(&ps[i].1), bound);
        push_line(&mut blocks, b);
        i = i + 1;
        assert(views(blocks@) =~= Seq::new(i as nat, |j: int| plain_block(ps@[j].0@, Some(ps@[j].1), bound@)));
    }
    join_strings(&blocks, "\n\n")
}

/// One released entry, as `whois --history` prints it.
pub open spec fn history_line(h: HistoryEntry) -> Seq<char> {
    port_text(h.port, h.protocol) + ": was "@ + h.project@ + "/"@ + h.service@ + "  (allocated "@ + h.allocated@
        + ", released "@ + h.released@ + " — "@ + h.reason@ + ")"@
}

/// Released entries, one line each.
pub fn history(entries: &Vec<&HistoryEntry>) -> (r: String)
    ensures
        r@ == join(Seq::new(entries@.len(), |i: int| history_line(*entries@[i])), "\n"@),
{
    let mut lines: Vec<String> = Vec::new();
    let mut i: usize = 0;
    while i < entries.len()
        invariant
            i <= entries@.len(),
            views(lines@) == Seq::new(i as nat, |j: int| history_line(*entries@[j])),
        decreases entries@.len() - i,
    {
        let e = entries[i];
        let mut l = String::new();
        push_port(&mut l, e.port, e.protocol);
        l.append(": was ");
        l.append(e.project.as_str());
        l.append("/");
        l.append(e.service.as_str());
        l.append("  (allocated ");
        l.append(e.allocated.as_str());
        l.append(", released ");
        l.append(e.released.as_str());
        l.append(" — ");
        l.append(e.reason.as_str());
        l.append(")");
        assert(l@ =~= history_line(*entries@[i as int]));
        push_line(&mut lines, l);
        i = i + 1;
        assert(views(lines@) =~= Seq::new(i as nat, |j: int| history_line(*entries@[j])));
    }
    join_strings(&lines, "\n")
}

} // verus!
