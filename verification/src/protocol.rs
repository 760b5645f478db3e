//! Port transport protocol — TCP or UDP. TCP and UDP at the same port
//! number are independent registrations.

use vstd::prelude::*;

verus! {

#[derive(Debug, Clone, Copy, PartialEq, Eq, Structural)]
pub enum Protocol {
    Tcp,
    Udp,
}

impl Protocol {
    /// Lower-case name, as written in the registry file and in messages.
    pub open spec fn name(self) -> Seq<char> {
        match self {
            Protocol::Tcp => seq!['t', 'c', 'p'],
            Protocol::Udp => seq!['u', 'd', 'p'],
        }
    }

    /// Display order: TCP rows come before UDP rows.
    pub open spec fn rank(self) -> int {
        match self {
            Protocol::Tcp => 0,
            Protocol::Udp => 1,
        }
    }

    pub fn as_str(&self) -> (r: &'static str)
        ensures
            r@ == self.name(),
    {
        match self {
            Protocol::Tcp => {
                proof {
                    reveal_strlit("tcp");
                }
                "tcp"
            },
            Protocol::Udp => {
                proof {
                    reveal_strlit("udp");
                }
                "udp"
            },
        }
    }

    /// Whether `self` sorts strictly before `other` (TCP before UDP).
    pub fn before(&self, other: &Protocol) -> (r: bool)
        ensures
            r == (self.rank() < other.rank()),
    {
        match (self, other) {
            (Protocol::Tcp, Protocol::Udp) => true,
            _ => false,
        }
    }
}

impl Default for Protocol {
    fn default() -> (r: Self)
        ensures
            r == Protocol::Tcp,
    {
        Protocol::Tcp
    }
}


impl Protocol {
    /// The protocol a `--udp` flag selects.
    pub fn from_udp_flag(udp: bool) -> (r: Protocol)
        ensures
            r == (if udp { Protocol::Udp } else { Protocol::Tcp }),
    {
        if udp {
            Protocol::Udp
        } else {
            Protocol::Tcp
        }
    }
}

} // verus!
