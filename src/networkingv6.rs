use vstd::prelude::*;
use crate::bit_utils::{count_ones, popcount};

verus! {

/// A 128-bit address, held as its integer value (most significant bit first).
#[derive(Debug, Clone, Copy, PartialEq, Eq, Structural)]
pub struct Ipv6Addr(pub u128);

/// Prefix arithmetic on addresses.
pub trait IpAddrTools: Sized {
    /// The number of set bits of the address, read as a prefix length.
    spec fn spec_count_ones(self) -> nat;

    /// The address with every bit cleared that is clear in `mask`.
    spec fn spec_mask(self, mask: Self) -> Self;

    fn count_contiguous_ones(self) -> (r: usize)
        ensures
            r == self.spec_count_ones(),
    ;

    fn mask(self, mask: Self) -> (r: Self)
        ensures
            r == self.spec_mask(mask),
    ;
}

impl IpAddrTools for Ipv6Addr {
    open spec fn spec_count_ones(self) -> nat {
        count_ones(self.0)
    }

    open spec fn spec_mask(self, mask: Self) -> Self {
        Ipv6Addr(self.0 & mask.0)
    }

    fn count_contiguous_ones(self) -> (r: usize) {
        popcount(self.0)
    }

    fn mask(self, mask: Self) -> (r: Self) {
        Ipv6Addr(self.0 & mask.0)
    }
}

/// Where a packet leaves for: a neighbouring router's address or a local interface.
#[derive(Debug, Clone, Copy, PartialEq, Eq, Structural)]
pub enum Interface {
    IpAddr(Ipv6Addr),
    Port(u64),
}

/// A destination prefix, given by an address and a mask, with its next hop.
#[derive(Debug, Clone, Copy, PartialEq, Eq, Structural)]
pub struct Route {
    pub destination: Ipv6Addr,
    pub mask: Ipv6Addr,
    pub next_hop: Interface,
}

/// `a` falls under the prefix of `r`.
pub open spec fn route_matches(r: Route, a: Ipv6Addr) -> bool {
    a.spec_mask(r.mask) == r.destination
}

/// How specific `r` is: the number of set bits of its mask.
pub open spec fn prefix_len(r: Route) -> nat {
    r.mask.spec_count_ones()
}

/// Route `i` of `s` matches `a`, no matching route is longer, and every matching
/// route before it is strictly shorter.
pub open spec fn is_best_route(s: Seq<Route>, a: Ipv6Addr, i: int) -> bool {
    &&& 0 <= i < s.len()
    &&& route_matches(s[i], a)
    &&& forall|j: int| 0 <= j < s.len() && route_matches(s[j], a) ==> prefix_len(s[j]) <= prefix_len(s[i])
    &&& forall|j: int| 0 <= j < i && route_matches(s[j], a) ==> prefix_len(s[j]) < prefix_len(s[i])
}

/// The longest matching route of `s` for `a`, the earliest one among equals.
pub open spec fn best_route(s: Seq<Route>, a: Ipv6Addr) -> Option<Route> {
    if exists|i: int| is_best_route(s, a, i) {
        Some(s[choose|i: int| is_best_route(s, a, i)])
    } else {
        None
    }
}

/// At most one position of `s` holds the best route for `a`.
pub proof fn lemma_best_route_unique(s: Seq<Route>, a: Ipv6Addr, i: int, k: int)
    requires
        is_best_route(s, a, i),
        is_best_route(s, a, k),
    ensures
        i == k,
{
    if i < k {
        assert(prefix_len(s[i]) < prefix_len(s[k]));
    } else if k < i {
        assert(prefix_len(s[k]) < prefix_len(s[i]));
    }
}

impl Route {
    /// Whether `ipaddr` falls under this route's prefix.
    pub fn matches(&self, ipaddr: Ipv6Addr) -> (r: bool)
        ensures
            r == route_matches(*self, ipaddr),
    {
        ipaddr.mask(self.mask) == self.destination
    }
}

/// A named, ordered list of routes.
#[derive(Debug)]
pub struct RoutingTable {
    pub name: String,
    pub table: Vec<Route>,
}

impl RoutingTable {
    /// The longest-prefix match for `ipaddr`; among equally long matches the
    /// earliest in the table.
    pub fn find_best_route(&self, ipaddr: Ipv6Addr) -> (r: Option<&Route>)
        ensures
            match r {
                Some(x) => best_route(self.table@, ipaddr) == Some(*x),
                None => best_route(self.table@, ipaddr) is None,
            },
            r is None <==> forall|i: int| 0 <= i < self.table@.len() ==> !route_matches(self.table@[i], ipaddr),
    {
        let s = Ghost(self.table@);
        let mut best: Option<usize> = None;
        let mut best_len: usize = 0;
        let mut i: usize = 0;
        while i < self.table.len()
            invariant
                s@ == self.table@,
                i <= s@.len(),
                match best {
                    None => forall|j: int| 0 <= j < i ==> !route_matches(s@[j], ipaddr),
                    Some(b) => {
                        &&& b < i
                        &&& route_matches(s@[b as int], ipaddr)
                        &&& best_len == prefix_len(s@[b as int])
                        &&& forall|j: int| 0 <= j < i && route_matches(s@[j], ipaddr) ==> prefix_len(s@[j]) <= best_len
                        &&& forall|j: int| 0 <= j < b && route_matches(s@[j], ipaddr) ==> prefix_len(s@[j]) < best_len
                    },
                },
            decreases s@.len() - i,
        {
            let route = &self.table[i];
            if route.matches(ipaddr) {
                let len = route.mask.count_contiguous_ones();
                match best {
                    None => {
                        best = Some(i);
                        best_len = len;
                    },
                    Some(_) => {
                        if len > best_len {
                            best = Some(i);
                            best_len = len;
                        }
                    },
                }
            }
            i = i + 1;
        }
        match best {
            None => {
                assert(!exists|k: int| is_best_route(s@, ipaddr, k));
                None
            },
            Some(b) => {
                assert(is_best_route(s@, ipaddr, b as int));
                proof {
                    let k = choose|k: int| is_best_route(s@, ipaddr, k);
                    lemma_best_route_unique(s@, ipaddr, b as int, k);
                }
                Some(&self.table[b])
            },
        }
    }

    /// The next hop of the best route for `ipaddr`, if any route matches.
    pub fn find_next_hop(&self, ipaddr: Ipv6Addr) -> (r: Option<Interface>)
        ensures
            r == match best_route(self.table@, ipaddr) {
                Some(rt) => Some(rt.next_hop),
                None => None::<Interface>,
            },
    {
        if let Some(route) = self.find_best_route(ipaddr) {
            Some(route.next_hop)
        } else {
            None
        }
    }
}

} // verus!
