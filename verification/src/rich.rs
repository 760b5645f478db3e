//! The rich `ls` layout — coloured, columned, icon-prefixed — a human sees
//! in a real terminal. Column widths are measured in display columns, so
//! double-width icons keep the columns aligned. An inactive palette gives
//! the same shape with no escapes and no icons.

use std::collections::HashSet;

use vstd::prelude::*;

use crate::format::{byte_len, display_order, glyph, on_protocol, painted, port_status_glyph, sorted_services, Palette};
use crate::registry::{Entry, Registry, ServiceMap};
use crate::protocol::Protocol;
use crate::services::{env_var_name, env_var_spec, lemma_env_var_escape_free};
use crate::strmap::StrMap;
use crate::text::{
    dec, dec_chars, join, join_strings, lacks, lemma_lacks_cat, lemma_lacks_dec, lemma_lacks_join, lemma_lacks_pad_right, pad_right,
    push_chars, push_dec, push_line, push_padded, push_repeat, repeat, string_of, views,
};

verus! {

broadcast use vstd::std_specs::hash::group_hash_axioms;

/// The display width `unicode-width` assigns to a string.
pub uninterp spec fn display_width(s: Seq<char>) -> usize;

/// `UnicodeWidthStr::width`: the string's width in terminal columns.
/// Claimed: the result is `display_width` of the characters, a function of
/// them alone.
#[verifier::external_body]
fn str_width(s: &str) -> (r: usize)
    ensures
        r == display_width(s@),
{
    unicode_width::UnicodeWidthStr::width(s)
}

/// Width of a service's name cell: its icon and a space (when icons show)
/// plus the name, in display columns, saturating at `usize::MAX`.
pub open spec fn cell_width(icons: StrMap<String>, svc: Seq<char>, with_icons: bool) -> usize {
    let icon_w: usize = if with_icons && icons.lookup(svc) is Some {
        display_width(icons.lookup(svc)->0@ + " "@)
    } else {
        0
    };
    icon_w.saturating_add(display_width(svc))
}

/// Column widths (name, port, env var) over `items`, starting from the
/// header labels' widths.
pub open spec fn widths_of(items: Seq<(String, Entry)>, icons: StrMap<String>, with_icons: bool) -> (usize, usize, usize)
    decreases items.len(),
{
    if items.len() == 0 {
        (7, 4, 7)
    } else {
        let w = widths_of(items.drop_last(), icons, with_icons);
        let s = items.last().0@;
        let nw = cell_width(icons, s, with_icons);
        let pw = dec(items.last().1.port as nat).len();
        let ew = byte_len(env_var_spec(s));
        (
            if nw > w.0 { nw } else { w.0 },
            if pw > w.1 { pw as usize } else { w.1 },
            if ew > w.2 { ew as usize } else { w.2 },
        )
    }
}

/// The services of every project, project by project.
pub open spec fn all_items(ps: Seq<(String, ServiceMap)>) -> Seq<(String, Entry)>
    decreases ps.len(),
{
    if ps.len() == 0 {
        Seq::empty()
    } else {
        all_items(ps.drop_last()) + ps.last().1.items()
    }
}

/// Width of the rule under the header: the glyph gutter, every column and
/// the gaps between them, saturating at `usize::MAX`.
pub open spec fn rule_width(w: (usize, usize, usize)) -> nat {
    let total = w.0 + w.1 + w.2 + 25;
    if total > usize::MAX {
        usize::MAX as nat
    } else {
        total as nat
    }
}

pub open spec fn header_line(w: (usize, usize, usize)) -> Seq<char> {
    "  "@ + pad_right("SERVICE"@, w.0 as nat) + "  "@ + pad_right("PORT"@, w.1 as nat) + "  "@ + pad_right("PROTO"@, 5)
        + "  "@ + pad_right("ENV VAR"@, w.2 as nat) + "  "@ + "ALLOCATED"@
}

/// The column header and the rule under it.
pub open spec fn header_text(w: (usize, usize, usize), active: bool) -> Seq<char> {
    painted(active, "1"@, header_line(w)) + "\n"@ + painted(active, "2"@, repeat('─', rule_width(w)))
}

/// One rich row.
pub open spec fn rich_row(
    svc: Seq<char>,
    e: Entry,
    w: (usize, usize, usize),
    bound: Set<u16>,
    active: bool,
    icons: StrMap<String>,
) -> Seq<char> {
    let b = bound.contains(e.port);
    let g = painted(active, if b { "32"@ } else { "2"@ }, glyph(b));
    let icon = if active && icons.lookup(svc) is Some {
        icons.lookup(svc)->0@ + " "@
    } else {
        Seq::<char>::empty()
    };
    let pad = repeat(' ', w.0.saturating_sub(cell_width(icons, svc, active)) as nat);
    let name = icon + painted(active, "1"@, svc) + pad;
    let port = painted(active, "36"@, pad_right(dec(e.port as nat), w.1 as nat));
    let proto = painted(active, "2"@, pad_right(e.protocol.name(), 5));
    let env = painted(active, "33"@, pad_right(env_var_spec(svc), w.2 as nat));
    let allocated = painted(active, "2"@, e.allocated@);
    g + " "@ + name + "  "@ + port + "  "@ + proto + "  "@ + env + "  "@ + allocated
}

pub open spec fn rich_rows(
    items: Seq<(String, Entry)>,
    w: (usize, usize, usize),
    bound: Set<u16>,
    active: bool,
    icons: StrMap<String>,
) -> Seq<char>
    decreases items.len(),
{
    if items.len() == 0 {
        Seq::empty()
    } else {
        rich_rows(items.drop_last(), w, bound, active, icons) + "\n"@ + rich_row(items.last().0@, items.last().1, w, bound, active, icons)
    }
}

/// A project's title and its rows.
pub open spec fn rich_project(
    name: Seq<char>,
    m: ServiceMap,
    w: (usize, usize, usize),
    bound: Set<u16>,
    active: bool,
    icons: StrMap<String>,
) -> Seq<char> {
    painted(active, "1;35"@, "▾ "@ + name) + rich_rows(display_order(m), w, bound, active, icons)
}

/// Column widths fixed for one render.
struct RichWidths {
    name: usize,
    port: usize,
    env: usize,
}

impl RichWidths {
    spec fn spec_tuple(&self) -> (usize, usize, usize) {
        (self.name, self.port, self.env)
    }
}

fn name_cell_width(icons: &StrMap<String>, svc: &str, with_icons: bool) -> (r: usize)
    ensures
        r == cell_width(*icons, svc@, with_icons),
{
    let icon_w: usize = if with_icons {
        match icons.get(svc) {
            Some(i) => {
                let mut t = i.clone();
                t.append(" ");
                str_width(t.as_str())
            },
            None => 0,
        }
    } else {
        0
    };
    icon_w.saturating_add(str_width(svc))
}

/// Widens `w` to fit the services of `m`.
fn widen(w: &mut RichWidths, m: &ServiceMap, icons: &StrMap<String>, with_icons: bool, Ghost(prefix): Ghost<Seq<(String, Entry)>>)
    requires
        old(w).spec_tuple() == widths_of(prefix, *icons, with_icons),
    ensures
        final(w).spec_tuple() == widths_of(prefix + m.items(), *icons, with_icons),
{
    let es = m.entries();
    let mut i: usize = 0;
    assert(prefix + es@.subrange(0, 0) =~= prefix);
    while i < es.len()
        invariant
            es@ == m.items(),
            i <= es@.len(),
            w.spec_tuple() == widths_of(prefix + es@.subrange(0, i as int), *icons, with_icons),
        decreases es@.len() - i,
    {
        assert((prefix + es@.subrange(0, i as int + 1)).drop_last() =~= prefix + es@.subrange(0, i as int));
        let (svc, e) = &es[i];
        let nw = name_cell_width(icons, svc.as_str(), with_icons);
        let pw = dec_chars(e.port as u64).len();
        let ew = env_var_name(svc.as_str()).as_str().len();
        if nw > w.name {
            w.name = nw;
        }
        if pw > w.port {
            w.port = pw;
        }
        if ew > w.env {
            w.env = ew;
        }
        i = i + 1;
    }
    assert(es@.subrange(0, es@.len() as int) =~= es@);
}

fn header(w: &RichWidths, palette: &Palette) -> (r: String)
    ensures
        r@ == header_text(w.spec_tuple(), palette.is_active()),
{
    let mut line = String::from_str("  ");
    push_padded(&mut line, "SERVICE", w.name);
    line.append("  ");
    push_padded(&mut line, "PORT", w.port);
    line.append("  ");
    push_padded(&mut line, "PROTO", 5);
    line.append("  ");
    push_padded(&mut line, "ENV VAR", w.env);
    line.append("  ");
    line.append("ALLOCATED");
    assert(line@ =~= header_line(w.spec_tuple()));
    let rw: usize = w.name.saturating_add(w.port).saturating_add(w.env).saturating_add(25);
    let mut rule = String::new();
    push_repeat(&mut rule, '─', rw);
    assert(rule@ =~= repeat('─', rule_width(w.spec_tuple())));
    let mut r = palette.paint("1", line.as_str());
    r.append("\n");
    let p = palette.paint("2", rule.as_str());
    r.append(p.as_str());
    r
}

fn name_part(svc: &str, w: &RichWidths, palette: &Palette) -> (r: String)
    ensures
        r@ == ({
            let active = palette.is_active();
            let icons = palette.icon_map();
            let icon = if active && icons.lookup(svc@) is Some {
                icons.lookup(svc@)->0@ + " "@
            } else {
                Seq::<char>::empty()
            };
            icon + painted(active, "1"@, svc@) + repeat(' ', w.name.saturating_sub(cell_width(icons, svc@, active)) as nat)
        }),
{
    let active = palette.active();
    let mut r = String::new();
    if active {
        match palette.icons().get(svc) {
            Some(i) => {
                r.append(i.as_str());
                r.append(" ");
            },
            None => {},
        }
    }
    let name = palette.paint("1", svc);
    r.append(name.as_str());
    let pad = w.name.saturating_sub(name_cell_width(palette.icons(), svc, active));
    push_repeat(&mut r, ' ', pad);
    r
}

fn padded_paint(code: &str, text: &str, width: usize, palette: &Palette) -> (r: String)
    ensures
        r@ == painted(palette.is_active(), code@, pad_right(text@, width as nat)),
{
    let mut t = String::new();
    push_padded(&mut t, text, width);
    assert(t@ =~= pad_right(text@, width as nat));
    palette.paint(code, t.as_str())
}

fn row(svc: &str, e: &Entry, w: &RichWidths, bound: &HashSet<u16>, palette: &Palette) -> (r: String)
    ensures
        r@ == rich_row(svc@, *e, w.spec_tuple(), bound@, palette.is_active(), palette.icon_map()),
{
    let is_bound = bound.contains(&e.port);
    let g = palette.paint(if is_bound { "32" } else { "2" }, port_status_glyph(is_bound));
    let name = name_part(svc, w, palette);
    let digits = dec_chars(e.port as u64);
    let ds = string_of(&digits);
    let port = padded_paint("36", ds.as_str(), w.port, palette);
    let proto = padded_paint("2", e.protocol.as_str(), 5, palette);
    let ev = env_var_name(svc);
    let env = padded_paint("33", ev.as_str(), w.env, palette);
    let allocated = palette.paint("2", e.allocated.as_str());
    let mut r = g;
    r.append(" ");
    r.append(name.as_str());
    r.append("  ");
    r.append(port.as_str());
    r.append("  ");
    r.append(proto.as_str());
    r.append("  ");
    r.append(env.as_str());
    r.append("  ");
    r.append(allocated.as_str());
    assert(r@ =~= rich_row(svc@, *e, w.spec_tuple(), bound@, palette.is_active(), palette.icon_map()));
    r
}

fn project(name: &str, services: &ServiceMap, w: &RichWidths, bound: &HashSet<u16>, palette: &Palette) -> (r: String)
    ensures
        r@ == rich_project(name@, *services, w.spec_tuple(), bound@, palette.is_active(), palette.icon_map()),
{
    let mut title = String::from_str("▾ ");
    title.append(name);
    let mut out = palette.paint("1;35", title.as_str());
    let ghost head = out@;
    let rows = sorted_services(services);
    let ghost order = display_order(*services);
    let mut i: usize = 0;
    while i < rows.len()
        invariant
            rows@.len() == order.len(),
            forall|j: int| 0 <= j < rows@.len() ==> *(#[trigger] rows@[j]) == order[j],
            i <= rows@.len(),
            out@ == head + rich_rows(order.subrange(0, i as int), w.spec_tuple(), bound@, palette.is_active(), palette.icon_map()),
        decreases rows@.len() - i,
    {
        let (svc, e) = rows[i];
        let ghost before = out@;
        out.append("\n");
        let line = row(svc.as_str(), e, w, bound, palette);
        out.append(line.as_str());
        proof {
            assert(order.subrange(0, i as int + 1).drop_last() =~= order.subrange(0, i as int));
            assert(out@ =~= before + "\n"@ + rich_row(order[i as int].0@, order[i as int].1, w.spec_tuple(), bound@, palette.is_active(), palette.icon_map()));
        }
        i = i + 1;
    }
    assert(order.subrange(0, order.len() as int) =~= order);
    out
}

/// The whole registry in the rich layout: `(no registrations)` when empty,
/// else the header over every project in name order, blank-line separated.
pub open spec fn rich_all(reg: Registry, bound: Set<u16>, active: bool, icons: StrMap<String>) -> Seq<char> {
    let ps = reg.projects.items();
    let w = widths_of(all_items(ps), icons, active);
    if ps.len() == 0 {
        "(no registrations)"@
    } else {
        header_text(w, active) + "\n"@ + join(
            Seq::new(ps.len(), |i: int| rich_project(ps[i].0@, ps[i].1, w, bound, active, icons)),
            "\n\n"@,
        )
    }
}

pub fn all_rich(reg: &Registry, bound: &HashSet<u16>, palette: &Palette) -> (r: String)
    ensures
        r@ == rich_all(*reg, bound@, palette.is_active(), palette.icon_map()),
{
    let ps = reg.projects.entries();
    if ps.len() == 0 {
        return String::from_str("(no registrations)");
    }
    let mut w = RichWidths { name: 7, port: 4, env: 7 };
    let mut i: usize = 0;
    while i < ps.len()
        invariant
            ps@ == reg.projects.items(),
            i <= ps@.len(),
            w.spec_tuple() == widths_of(all_items(ps@.subrange(0, i as int)), palette.icon_map(), palette.is_active()),
        decreases ps@.len() - i,
    {
        assert(ps@.subrange(0, i as int + 1).drop_last() =~= ps@.subrange(0, i as int));
        widen(&mut w, &ps[i].1, palette.icons(), palette.active(), Ghost(all_items(ps@.subrange(0, i as int))));
        i = i + 1;
    }
    assert(ps@.subrange(0, ps@.len() as int) =~= ps@);
    let mut blocks: Vec<String> = Vec::new();
    let mut i: usize = 0;
    while i < ps.len()
        invariant
            ps@ == reg.projects.items(),
            i <= ps@.len(),
            w.spec_tuple() == widths_of(all_items(ps@), palette.icon_map(), palette.is_active()),
            views(blocks@) == Seq::new(i as nat, |j: int| rich_project(ps@[j].0@, ps@[j].1, w.spec_tuple(), bound@, palette.is_active(), palette.icon_map())),
        decreases ps@.len() - i,
    {
        let b = project(ps[i].0.as_str(), &ps[i].1, &w, bound, palette);
        push_line(&mut blocks, b);
        i = i + 1;
        assert(views(blocks@) =~= Seq::new(i as nat, |j: int| rich_project(ps@[j].0@, ps@[j].1, w.spec_tuple(), bound@, palette.is_active(), palette.icon_map())));
    }
    let mut r = header(&w, palette);
    r.append("\n");
    let body = join_strings(&blocks, "\n\n");
    r.append(body.as_str());
    r
}

/// One project in the rich layout; an absent or empty project shows its
/// title and `(no registrations)` under the header.
pub open spec fn rich_block(project: Seq<char>, services: Option<ServiceMap>, bound: Set<u16>, active: bool, icons: StrMap<String>) -> Seq<char> {
    match services {
        Some(m) => if m.items().len() > 0 {
            let w = widths_of(m.items(), icons, active);
            header_text(w, active) + "\n"@ + rich_project(project, m, w, bound, active, icons)
        } else {
            header_text((7, 4, 7), active) + "\n"@ + painted(active, "1;35"@, "▾ "@ + project) + "\n  (no registrations)"@
        },
        None => header_text((7, 4, 7), active) + "\n"@ + painted(active, "1;35"@, "▾ "@ + project) + "\n  (no registrations)"@,
    }
}

pub fn project_block_rich(project_name: &str, services: Option<&ServiceMap>, bound: &HashSet<u16>, palette: &Palette) -> (r: String)
    ensures
        r@ == rich_block(project_name@, match services {
            Some(m) => Some(*m),
            None => None,
        }, bound@, palette.is_active(), palette.icon_map()),
{
    let mut w = RichWidths { name: 7, port: 4, env: 7 };
    match services {
        Some(s) if !s.is_empty() => {
            assert(Seq::<(String, Entry)>::empty() + s.items() =~= s.items());
            widen(&mut w, s, palette.icons(), palette.active(), Ghost(Seq::empty()));
            let mut r = header(&w, palette);
            r.append("\n");
            let b = project(project_name, s, &w, bound, palette);
            r.append(b.as_str());
            r
        },
        _ => {
            let mut r = header(&w, palette);
            r.append("\n");
            let mut title = String::from_str("▾ ");
            title.append(project_name);
            let t = palette.paint("1;35", title.as_str());
            r.append(t.as_str());
            r.append("\n  (no registrations)");
            r
        },
    }
}

/// No service name or allocation date among `items` holds an escape
/// character.
pub open spec fn items_escape_free(items: Seq<(String, Entry)>) -> bool {
    forall|j: int| 0 <= j < items.len() ==> lacks((#[trigger] items[j]).0@, '\u{1b}') && lacks(items[j].1.allocated@, '\u{1b}')
}

/// No project name, service name or allocation date of `reg` holds an
/// escape character.
pub open spec fn registry_escape_free(reg: Registry) -> bool {
    forall|i: int| 0 <= i < reg.projects.items().len() ==> lacks((#[trigger] reg.projects.items()[i]).0@, '\u{1b}')
        && items_escape_free(reg.projects.items()[i].1.items())
}

proof fn lemma_on_protocol_escape_free(items: Seq<(String, Entry)>, p: Protocol)
    requires
        items_escape_free(items),
    ensures
        items_escape_free(on_protocol(items, p)),
    decreases items.len(),
{
    if items.len() > 0 {
        let init = items.drop_last();
        assert forall|j: int| 0 <= j < init.len() implies lacks((#[trigger] init[j]).0@, '\u{1b}') && lacks(init[j].1.allocated@, '\u{1b}') by {
            assert(init[j] == items[j]);
        }
        lemma_on_protocol_escape_free(init, p);
        let rest = on_protocol(init, p);
        let last = items.last();
        assert(lacks(last.0@, '\u{1b}') && lacks(last.1.allocated@, '\u{1b}'));
        if last.1.protocol == p {
            let out = rest.push(last);
            assert forall|j: int| 0 <= j < out.len() implies lacks((#[trigger] out[j]).0@, '\u{1b}') && lacks(out[j].1.allocated@, '\u{1b}') by {
                if j < rest.len() {
                    assert(out[j] == rest[j]);
                }
            }
        }
    }
}

proof fn lemma_display_order_escape_free(m: ServiceMap)
    requires
        items_escape_free(m.items()),
    ensures
        items_escape_free(display_order(m)),
{
    let a = on_protocol(m.items(), Protocol::Tcp);
    let b = on_protocol(m.items(), Protocol::Udp);
    lemma_on_protocol_escape_free(m.items(), Protocol::Tcp);
    lemma_on_protocol_escape_free(m.items(), Protocol::Udp);
    let out = a + b;
    assert forall|j: int| 0 <= j < out.len() implies lacks((#[trigger] out[j]).0@, '\u{1b}') && lacks(out[j].1.allocated@, '\u{1b}') by {
        if j < a.len() {
            assert(out[j] == a[j]);
        } else {
            assert(out[j] == b[j - a.len()]);
        }
    }
}

proof fn lemma_spaces_escape_free(n: nat)
    ensures
        lacks(repeat(' ', n), '\u{1b}'),
{
    assert forall|i: int| 0 <= i < repeat(' ', n).len() implies repeat(' ', n)[i] != '\u{1b}' by {
        assert(repeat(' ', n)[i] == ' ');
    }
}

proof fn lemma_literals_escape_free()
    ensures
        lacks(" "@, '\u{1b}'),
        lacks("  "@, '\u{1b}'),
        lacks("\n"@, '\u{1b}'),
        lacks("\n\n"@, '\u{1b}'),
        lacks("▾ "@, '\u{1b}'),
        lacks("SERVICE"@, '\u{1b}'),
        lacks("PORT"@, '\u{1b}'),
        lacks("PROTO"@, '\u{1b}'),
        lacks("ENV VAR"@, '\u{1b}'),
        lacks("ALLOCATED"@, '\u{1b}'),
        lacks("(no registrations)"@, '\u{1b}'),
        lacks("\n  (no registrations)"@, '\u{1b}'),
        lacks(glyph(true), '\u{1b}'),
        lacks(glyph(false), '\u{1b}'),
{
    reveal_strlit(" ");
    reveal_strlit("  ");
    reveal_strlit("\n");
    reveal_strlit("\n\n");
    reveal_strlit("▾ ");
    reveal_strlit("SERVICE");
    reveal_strlit("PORT");
    reveal_strlit("PROTO");
    reveal_strlit("ENV VAR");
    reveal_strlit("ALLOCATED");
    reveal_strlit("(no registrations)");
    reveal_strlit("\n  (no registrations)");
    reveal_strlit("●");
    reveal_strlit("○");
}

proof fn lemma_header_escape_free(w: (usize, usize, usize))
    ensures
        lacks(header_text(w, false), '\u{1b}'),
{
    broadcast use lemma_lacks_cat;
    lemma_literals_escape_free();
    lemma_lacks_pad_right("SERVICE"@, w.0 as nat, '\u{1b}');
    lemma_lacks_pad_right("PORT"@, w.1 as nat, '\u{1b}');
    lemma_lacks_pad_right("PROTO"@, 5, '\u{1b}');
    lemma_lacks_pad_right("ENV VAR"@, w.2 as nat, '\u{1b}');
    assert forall|i: int| 0 <= i < repeat('─', rule_width(w)).len() implies repeat('─', rule_width(w))[i] != '\u{1b}' by {
        assert(repeat('─', rule_width(w))[i] == '─');
    }
    assert(lacks(header_line(w), '\u{1b}'));
}

proof fn lemma_row_escape_free(svc: Seq<char>, e: Entry, w: (usize, usize, usize), bound: Set<u16>, icons: StrMap<String>)
    requires
        lacks(svc, '\u{1b}'),
        lacks(e.allocated@, '\u{1b}'),
    ensures
        lacks(rich_row(svc, e, w, bound, false, icons), '\u{1b}'),
{
    broadcast use lemma_lacks_cat;
    lemma_literals_escape_free();
    lemma_spaces_escape_free(w.0.saturating_sub(cell_width(icons, svc, false)) as nat);
    lemma_lacks_dec(e.port as nat, '\u{1b}');
    lemma_lacks_pad_right(dec(e.port as nat), w.1 as nat, '\u{1b}');
    assert(lacks(e.protocol.name(), '\u{1b}'));
    lemma_lacks_pad_right(e.protocol.name(), 5, '\u{1b}');
    lemma_env_var_escape_free(svc);
    lemma_lacks_pad_right(env_var_spec(svc), w.2 as nat, '\u{1b}');
    assert(Seq::<char>::empty() + svc + repeat(' ', w.0.saturating_sub(cell_width(icons, svc, false)) as nat)
        =~= svc + repeat(' ', w.0.saturating_sub(cell_width(icons, svc, false)) as nat));
}

proof fn lemma_rows_escape_free(items: Seq<(String, Entry)>, w: (usize, usize, usize), bound: Set<u16>, icons: StrMap<String>)
    requires
        items_escape_free(items),
    ensures
        lacks(rich_rows(items, w, bound, false, icons), '\u{1b}'),
    decreases items.len(),
{
    broadcast use lemma_lacks_cat;
    if items.len() > 0 {
        let init = items.drop_last();
        assert forall|j: int| 0 <= j < init.len() implies lacks((#[trigger] init[j]).0@, '\u{1b}') && lacks(init[j].1.allocated@, '\u{1b}') by {
            assert(init[j] == items[j]);
        }
        lemma_rows_escape_free(init, w, bound, icons);
        let last = items.last();
        assert(lacks(last.0@, '\u{1b}') && lacks(last.1.allocated@, '\u{1b}'));
        lemma_row_escape_free(last.0@, last.1, w, bound, icons);
        lemma_literals_escape_free();
    } else {
        assert(rich_rows(items, w, bound, false, icons).len() == 0);
    }
}

proof fn lemma_project_escape_free(name: Seq<char>, m: ServiceMap, w: (usize, usize, usize), bound: Set<u16>, icons: StrMap<String>)
    requires
        lacks(name, '\u{1b}'),
        items_escape_free(m.items()),
    ensures
        lacks(rich_project(name, m, w, bound, false, icons), '\u{1b}'),
{
    broadcast use lemma_lacks_cat;
    lemma_literals_escape_free();
    lemma_display_order_escape_free(m);
    lemma_rows_escape_free(display_order(m), w, bound, icons);
}

/// With an inactive palette the rich layout is plain text: when the
/// registry's names and dates hold no escape character, neither does the
/// rendering of the whole registry, nor that of one of its projects.
pub proof fn law_inactive_rich_escape_free(reg: Registry, project: Seq<char>, services: Option<ServiceMap>, bound: Set<u16>, icons: StrMap<String>)
    requires
        registry_escape_free(reg),
        lacks(project, '\u{1b}'),
        services matches Some(m) ==> items_escape_free(m.items()),
    ensures
        lacks(rich_all(reg, bound, false, icons), '\u{1b}'),
        lacks(rich_block(project, services, bound, false, icons), '\u{1b}'),
{
    broadcast use lemma_lacks_cat;
    lemma_literals_escape_free();
    let ps = reg.projects.items();
    let w = widths_of(all_items(ps), icons, false);
    lemma_header_escape_free(w);
    let parts = Seq::new(ps.len(), |i: int| rich_project(ps[i].0@, ps[i].1, w, bound, false, icons));
    assert forall|i: int| 0 <= i < parts.len() implies lacks(#[trigger] parts[i], '\u{1b}') by {
        assert(lacks(ps[i].0@, '\u{1b}') && items_escape_free(ps[i].1.items()));
        lemma_project_escape_free(ps[i].0@, ps[i].1, w, bound, icons);
    }
    lemma_lacks_join(parts, "\n\n"@, '\u{1b}');
    lemma_header_escape_free((7, 4, 7));
    match services {
        Some(m) => {
            if m.items().len() > 0 {
                let wm = widths_of(m.items(), icons, false);
                lemma_header_escape_free(wm);
                lemma_project_escape_free(project, m, wm, bound, icons);
            }
        },
        None => {},
    }
}

} // verus!
