//! `spout reproject` — moves every registration from one project identity
//! to another, when a project's identity changed.

use vstd::prelude::*;

use crate::error::SpoutError;
use crate::registry::{shared_keys, string_views, Registry};
use crate::text::{dec, push_dec, str_eq};

verus! {

/// The report of a reproject that moved `n` services.
pub open spec fn moved_text(from: Seq<char>, to: Seq<char>, n: nat) -> Seq<char> {
    if n == 0 {
        "no services registered under '"@ + from + "'"@
    } else {
        "Moved "@ + dec(n) + " service"@ + (if n == 1 { Seq::<char>::empty() } else { "s"@ }) + " from '"@ + from + "' to '"@ + to + "'."@
    }
}

/// Moves every service of `from` to `to` and reports how many moved.
///
/// Identical identities are a usage error; services present under both are
/// a conflict naming them. Either way nothing changes.
pub fn run(reg: &mut Registry, from: &str, to: &str) -> (r: Result<String, SpoutError>)
    ensures
        from@ == to@ ==> (r matches Err(SpoutError::Usage(m)) && m@ == "--from and --to must be different project identities"@)
            && *final(reg) == *old(reg),
        from@ != to@ ==> ({
            let src = old(reg).projects.lookup(from@);
            let tgt = old(reg).projects.lookup(to@);
            let n: nat = match src {
                Some(m) => m.items().len(),
                None => 0,
            };
            if src is Some && tgt is Some && shared_keys(src->0, tgt->0).len() > 0 {
                &&& r matches Err(SpoutError::ReprojectConflict { from: f, to: t, services })
                    && f@ == from@ && t@ == to@ && string_views(services@) == shared_keys(src->0, tgt->0)
                &&& final(reg).history@ == old(reg).history@
                &&& forall|q: Seq<char>| #[trigger] final(reg).projects.lookup(q) == old(reg).projects.lookup(q)
            } else {
                &&& r matches Ok(s) && s@ == moved_text(from@, to@, n)
                &&& forall|t: Seq<char>| (#[trigger] final(reg).entry_of(from@, t)) is None
                &&& forall|t: Seq<char>| #[trigger] final(reg).entry_of(to@, t)
                    == (if src is Some && src->0.has(t) { src->0.lookup(t) } else { old(reg).entry_of(to@, t) })
                &&& forall|q: Seq<char>, t: Seq<char>| q != from@ && q != to@
                    ==> #[trigger] final(reg).entry_of(q, t) == old(reg).entry_of(q, t)
                &&& final(reg).history@.len() == old(reg).history@.len() + n
                &&& final(reg).history@.subrange(0, old(reg).history@.len() as int) == old(reg).history@
            }
        }),
{
    if str_eq(from, to) {
        return Err(SpoutError::Usage(String::from_str("--from and --to must be different project identities")));
    }
    match reg.reproject(from, to) {
        Err(conflicts) => Err(SpoutError::ReprojectConflict { from: from.to_owned(), to: to.to_owned(), services: conflicts }),
        Ok(n) => {
            if n == 0 {
                let mut s = String::from_str("no services registered under '");
                s.append(from);
                s.append("'");
                Ok(s)
            } else {
                let mut s = String::from_str("Moved ");
                push_dec(&mut s, n as u64);
                s.append(" service");
                if n != 1 {
                    s.append("s");
                }
                s.append(" from '");
                s.append(from);
                s.append("' to '");
                s.append(to);
                s.append("'.");
                assert(s@ =~= moved_text(from@, to@, n as nat));
                Ok(s)
            }
        },
    }
}

} // verus!
