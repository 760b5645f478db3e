//! What the full-screen `ls` view shows: which projects, in what order,
//! the row of each service, the height of each section, and which keys
//! leave. The binary draws them with its terminal library.

use std::collections::HashSet;

use vstd::prelude::*;

use crate::format::{glyph, port_status_glyph};
use crate::registry::{Entry, Registry, ServiceMap};
use crate::services::{env_var_name, env_var_spec};
use crate::strmap::StrMap;

verus! {

broadcast use vstd::std_specs::hash::group_hash_axioms;

/// The projects shown: every project, or only the named one (none when it
/// is absent), in name order.
pub fn sorted_projects<'a>(reg: &'a Registry, project_filter: Option<&str>) -> (r: Vec<&'a (String, ServiceMap)>)
    ensures
        match project_filter {
            None => r@.len() == reg.projects.items().len() && forall|i: int| 0 <= i < r@.len() ==> *(#[trigger] r@[i]) == reg.projects.items()[i],
            Some(name) => if reg.projects.has(name@) {
                r@.len() == 1 && r@[0].0@ == name@ && Some(r@[0].1) == reg.projects.lookup(name@)
            } else {
                r@.len() == 0
            },
        },
{
    proof {
        use_type_invariant(&reg.projects);
    }
    let ps = reg.projects.entries();
    let mut r: Vec<&'a (String, ServiceMap)> = Vec::new();
    match project_filter {
        None => {
            let mut i: usize = 0;
            while i < ps.len()
                invariant
                    ps@ == reg.projects.items(),
                    i <= ps@.len(),
                    r@.len() == i,
                    forall|j: int| 0 <= j < i ==> *(#[trigger] r@[j]) == ps@[j],
                decreases ps@.len() - i,
            {
                r.push(&ps[i]);
                i = i + 1;
            }
        },
        Some(name) => {
            let mut i: usize = 0;
            while i < ps.len()
                invariant
                    ps@ == reg.projects.items(),
                    reg.projects.wf(),
                    project_filter == Some(name),
                    i <= ps@.len(),
                    r@.len() == 0,
                    forall|j: int| 0 <= j < i ==> ps@[j].0@ != name@,
                decreases ps@.len() - i,
            {
                if crate::text::str_eq(ps[i].0.as_str(), name) {
                    proof {
                        reg.projects.lemma_lookup_at(i as int);
                    }
                    r.push(&ps[i]);
                    return r;
                }
                i = i + 1;
            }
            proof {
                if reg.projects.has(name@) {
                    let j = choose|j: int| 0 <= j < reg.projects.items().len() && #[trigger] reg.projects.items()[j].0@ == name@;
                    assert(ps@[j].0@ == name@);
                }
            }
        },
    }
    r
}

/// One service row of the full-screen view.
#[derive(Debug)]
pub struct ServiceRow {
    /// Whether the port is bound on the operating system.
    pub bound: bool,
    /// The status glyph.
    pub glyph: String,
    /// The service's name, after its icon when it has one.
    pub label: String,
    pub port: u16,
    pub env_var: String,
    pub allocated: String,
}

/// The row the view shows for `svc`.
pub open spec fn row_fits(row: ServiceRow, svc: Seq<char>, e: Entry, bound: Set<u16>, icons: StrMap<String>) -> bool {
    &&& row.bound == bound.contains(e.port)
    &&& row.glyph@ == glyph(bound.contains(e.port))
    &&& row.label@ == match icons.lookup(svc) {
        Some(i) => i@ + " "@ + svc,
        None => svc,
    }
    &&& row.port == e.port
    &&& row.env_var@ == env_var_spec(svc)
    &&& row.allocated@ == e.allocated@
}

/// The rows of a project's services, in name order.
pub fn collect_service_rows(services: &ServiceMap, bound: &HashSet<u16>, icons: &StrMap<String>) -> (r: Vec<ServiceRow>)
    ensures
        r@.len() == services.items().len(),
        forall|i: int| 0 <= i < r@.len() ==> row_fits(#[trigger] r@[i], services.items()[i].0@, services.items()[i].1, bound@, *icons),
{
    let es = services.entries();
    let mut r: Vec<ServiceRow> = Vec::new();
    let mut i: usize = 0;
    while i < es.len()
        invariant
            es@ == services.items(),
            i <= es@.len(),
            r@.len() == i,
            forall|j: int| 0 <= j < i ==> row_fits(#[trigger] r@[j], es@[j].0@, es@[j].1, bound@, *icons),
        decreases es@.len() - i,
    {
        let (svc, e) = &es[i];
        let is_bound = bound.contains(&e.port);
        let label = match icons.get(svc.as_str()) {
            Some(icon) => {
                let mut l = icon.clone();
                l.append(" ");
                l.append(svc.as_str());
                l
            },
            None => svc.clone(),
        };
        let row = ServiceRow {
            bound: is_bound,
            glyph: String::from_str(port_status_glyph(is_bound)),
            label,
            port: e.port,
            env_var: env_var_name(svc.as_str()),
            allocated: e.allocated.clone(),
        };
        r.push(row);
        i = i + 1;
    }
    r
}

/// Heights of the view's sections: the column header (2), then for each
/// project its title (1) and its rows, with a blank line (1) between
/// projects. Row counts are taken modulo 2^16, as the layout's unit is.
pub open spec fn body_heights_spec(counts: Seq<usize>) -> Seq<u16>
    decreases counts.len(),
{
    if counts.len() == 0 {
        seq![2u16]
    } else {
        let rest = body_heights_spec(counts.drop_last());
        let sep = if counts.len() > 1 { seq![1u16] } else { Seq::<u16>::empty() };
        rest + sep + seq![1u16, counts.last() as u16]
    }
}

/// How many services each shown project has.
pub open spec fn service_counts(projects: Seq<&(String, ServiceMap)>) -> Seq<usize> {
    Seq::new(projects.len(), |i: int| projects[i].1.items().len() as usize)
}

pub fn body_constraints(projects: &Vec<&(String, ServiceMap)>) -> (r: Vec<u16>)
    ensures
        r@ == body_heights_spec(service_counts(projects@)),
{
    let mut r: Vec<u16> = Vec::new();
    r.push(2);
    let mut i: usize = 0;
    assert(service_counts(projects@).take(0) =~= Seq::<usize>::empty());
    assert(r@ =~= body_heights_spec(Seq::<usize>::empty()));
    while i < projects.len()
        invariant
            i <= projects@.len(),
            r@ == body_heights_spec(service_counts(projects@).take(i as int)),
        decreases projects@.len() - i,
    {
        let ghost t = service_counts(projects@).take(i as int + 1);
        assert(t.drop_last() =~= service_counts(projects@).take(i as int));
        if i > 0 {
            r.push(1);
        }
        r.push(1);
        let n = projects[i].1.len();
        r.push(n as u16);
        assert(r@ =~= body_heights_spec(t));
        i = i + 1;
    }
    assert(service_counts(projects@).take(projects@.len() as int) =~= service_counts(projects@));
    r
}

/// A key the view reacts to.
#[derive(Debug, Clone, Copy, PartialEq, Eq, Structural)]
pub enum Key {
    Char(char),
    Esc,
    Other,
}

/// `q`, `Esc` and `Ctrl-C` leave the view.
pub fn is_exit_key(key: Key, ctrl: bool) -> (r: bool)
    ensures
        r == (key == Key::Char('q') || key == Key::Esc || (key == Key::Char('c') && ctrl)),
{
    match key {
        Key::Char(c) => c == 'q' || (c == 'c' && ctrl),
        Key::Esc => true,
        Key::Other => false,
    }
}

} // verus!
