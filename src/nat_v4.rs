use vstd::prelude::*;

verus! {

/// A 32-bit address, held as its integer value (most significant octet first).
#[derive(Debug, Clone, Copy, PartialEq, Eq, Structural)]
pub struct Ipv4Addr(pub u32);

/// A transport-layer packet. Its time to live, like every instant and duration of
/// this module, is counted in ticks of the caller's monotonic clock.
#[derive(Debug, Clone)]
pub struct RandomTransportPacket {
    pub time_to_live: u64,
    pub source_ip: Ipv4Addr,
    pub destination_ip: Ipv4Addr,
    pub source_port: u16,
    pub destination_port: u16,
    pub data: String,
}

/// One mapping: the private endpoint, the client that owns it, the public port
/// that stands for it, when it was made and how long it lives.
#[derive(Debug, Clone, Copy, PartialEq, Eq, Structural)]
pub struct NatEntry {
    pub source_ip: Ipv4Addr,
    pub source_port: u16,
    pub computer: u16,
    pub mangled_port: u16,
    pub mapped_on_time: u64,
    pub time_to_live: u64,
}

/// A translation table for one public address.
#[derive(Debug)]
pub struct NatTable {
    pub name: String,
    pub translated_addr: Ipv4Addr,
    pub table: Vec<NatEntry>,
}

/// How long `e` has existed at `now`; zero for a reading before its creation.
pub open spec fn age(e: NatEntry, now: u64) -> int {
    if now >= e.mapped_on_time {
        now - e.mapped_on_time
    } else {
        0
    }
}

pub open spec fn is_expired(e: NatEntry, now: u64) -> bool {
    age(e, now) >= e.time_to_live
}

/// The entries of `s` that are not expired at `now`, in their order.
pub open spec fn pruned(s: Seq<NatEntry>, now: u64) -> Seq<NatEntry>
    decreases s.len(),
{
    if s.len() == 0 {
        s
    } else {
        let rest = pruned(s.drop_last(), now);
        if is_expired(s.last(), now) {
            rest
        } else {
            rest.push(s.last())
        }
    }
}

pub open spec fn port_in_use(s: Seq<NatEntry>, p: int) -> bool {
    exists|i: int| 0 <= i < s.len() && s[i].mangled_port == p
}

/// No two entries share a mangled port.
pub open spec fn ports_unique(s: Seq<NatEntry>) -> bool {
    forall|i: int, j: int|
        0 <= i < s.len() && 0 <= j < s.len() && i != j ==> s[i].mangled_port != s[j].mangled_port
}

pub open spec fn has_free_port(s: Seq<NatEntry>) -> bool {
    exists|p: u16| !port_in_use(s, p as int)
}

pub open spec fn is_lowest_free(s: Seq<NatEntry>, p: u16) -> bool {
    &&& !port_in_use(s, p as int)
    &&& forall|q: int| 0 <= q < p ==> port_in_use(s, q)
}

/// The lowest port that no entry of `s` uses.
pub open spec fn lowest_free(s: Seq<NatEntry>) -> Option<u16> {
    if has_free_port(s) {
        Some(choose|p: u16| is_lowest_free(s, p))
    } else {
        None
    }
}

/// The table in which an allocation picks its port: the table itself while it has
/// a free port, else what is left of it after pruning.
pub open spec fn allocation_base(s: Seq<NatEntry>, now: u64) -> Seq<NatEntry> {
    if has_free_port(s) {
        s
    } else {
        pruned(s, now)
    }
}

pub open spec fn new_entry(ip: Ipv4Addr, port: u16, computer: u16, mangled: u16, now: u64, ttl: u64) -> NatEntry {
    NatEntry {
        source_ip: ip,
        source_port: port,
        computer,
        mangled_port: mangled,
        mapped_on_time: now,
        time_to_live: ttl,
    }
}

pub open spec fn is_first_source(s: Seq<NatEntry>, ip: Ipv4Addr, port: u16, i: int) -> bool {
    &&& 0 <= i < s.len()
    &&& s[i].source_ip == ip && s[i].source_port == port
    &&& forall|j: int| 0 <= j < i ==> !(s[j].source_ip == ip && s[j].source_port == port)
}

/// The first entry of `s` for the private endpoint `(ip, port)`.
pub open spec fn find_source(s: Seq<NatEntry>, ip: Ipv4Addr, port: u16) -> Option<NatEntry> {
    if exists|i: int| is_first_source(s, ip, port, i) {
        Some(s[choose|i: int| is_first_source(s, ip, port, i)])
    } else {
        None
    }
}

pub open spec fn is_first_mangled(s: Seq<NatEntry>, m: u16, i: int) -> bool {
    &&& 0 <= i < s.len()
    &&& s[i].mangled_port == m
    &&& forall|j: int| 0 <= j < i ==> s[j].mangled_port != m
}

/// The first entry of `s` whose mangled port is `m`.
pub open spec fn find_mangled(s: Seq<NatEntry>, m: u16) -> Option<NatEntry> {
    if exists|i: int| is_first_mangled(s, m, i) {
        Some(s[choose|i: int| is_first_mangled(s, m, i)])
    } else {
        None
    }
}

/// `p` with its source rewritten to `(ip, port)`.
pub open spec fn send_from(p: RandomTransportPacket, ip: Ipv4Addr, port: u16) -> RandomTransportPacket {
    RandomTransportPacket { source_ip: ip, source_port: port, ..p }
}

/// `p` with its destination rewritten to `(ip, port)`.
pub open spec fn deliver_to(p: RandomTransportPacket, ip: Ipv4Addr, port: u16) -> RandomTransportPacket {
    RandomTransportPacket { destination_ip: ip, destination_port: port, ..p }
}

/// The public port that an outgoing translation of `p` uses: that of the entry
/// already held for its source, else a newly allocated one.
pub open spec fn outgoing_port(s: Seq<NatEntry>, p: RandomTransportPacket, now: u64) -> Option<u16> {
    match find_source(s, p.source_ip, p.source_port) {
        Some(e) => Some(e.mangled_port),
        None => lowest_free(allocation_base(s, now)),
    }
}

/// The entries after an outgoing translation of `p` for `computer`.
pub open spec fn outgoing_table(s: Seq<NatEntry>, p: RandomTransportPacket, computer: u16, now: u64) -> Seq<NatEntry> {
    match find_source(s, p.source_ip, p.source_port) {
        Some(_) => s,
        None => {
            let base = allocation_base(s, now);
            match lowest_free(base) {
                Some(m) => base.push(new_entry(p.source_ip, p.source_port, computer, m, now, p.time_to_live)),
                None => base,
            }
        },
    }
}

pub proof fn lemma_first_source_found(s: Seq<NatEntry>, ip: Ipv4Addr, port: u16, i: int)
    requires
        is_first_source(s, ip, port, i),
    ensures
        find_source(s, ip, port) == Some(s[i]),
{
    let k = choose|k: int| is_first_source(s, ip, port, k);
    assert(is_first_source(s, ip, port, k));
    if k < i {
        assert(!(s[k].source_ip == ip && s[k].source_port == port));
    } else if i < k {
        assert(!(s[i].source_ip == ip && s[i].source_port == port));
    }
}

pub proof fn lemma_first_mangled_found(s: Seq<NatEntry>, m: u16, i: int)
    requires
        is_first_mangled(s, m, i),
    ensures
        find_mangled(s, m) == Some(s[i]),
{
    let k = choose|k: int| is_first_mangled(s, m, k);
    assert(is_first_mangled(s, m, k));
    if k < i {
        assert(s[k].mangled_port != m);
    } else if i < k {
        assert(s[i].mangled_port != m);
    }
}

proof fn lemma_lowest_free_exists(s: Seq<NatEntry>, p: u16)
    requires
        !port_in_use(s, p as int),
    ensures
        exists|q: u16| is_lowest_free(s, q),
    decreases p,
{
    if forall|q: int| 0 <= q < p ==> port_in_use(s, q) {
        assert(is_lowest_free(s, p));
    } else {
        let q = choose|q: int| 0 <= q < p && !port_in_use(s, q);
        lemma_lowest_free_exists(s, q as u16);
    }
}

pub proof fn lemma_lowest_free_found(s: Seq<NatEntry>, p: u16)
    requires
        is_lowest_free(s, p),
    ensures
        lowest_free(s) == Some(p),
{
    assert(has_free_port(s));
    let k = choose|k: u16| is_lowest_free(s, k);
    assert(is_lowest_free(s, k));
    if k < p {
        assert(port_in_use(s, k as int));
    } else if p < k {
        assert(port_in_use(s, p as int));
    }
}

/// Whenever `s` has a free port, `lowest_free` names the lowest one.
proof fn lemma_lowest_free_spec(s: Seq<NatEntry>)
    ensures
        match lowest_free(s) {
            Some(p) => is_lowest_free(s, p),
            None => !has_free_port(s),
        },
{
    if has_free_port(s) {
        let p = choose|p: u16| !port_in_use(s, p as int);
        lemma_lowest_free_exists(s, p);
    }
}

proof fn lemma_pruned_from(s: Seq<NatEntry>, now: u64)
    ensures
        pruned(s, now).len() <= s.len(),
        forall|k: int|
            0 <= k < pruned(s, now).len() ==> !is_expired(#[trigger] pruned(s, now)[k], now)
                && exists|j: int| 0 <= j < s.len() && s[j] == pruned(s, now)[k],
    decreases s.len(),
{
    if s.len() > 0 {
        let d = s.drop_last();
        lemma_pruned_from(d, now);
        assert forall|k: int| 0 <= k < pruned(s, now).len() implies !is_expired(
            #[trigger] pruned(s, now)[k],
            now,
        ) && exists|j: int| 0 <= j < s.len() && s[j] == pruned(s, now)[k] by {
            if k < pruned(d, now).len() {
                let j = choose|j: int| 0 <= j < d.len() && d[j] == pruned(d, now)[k];
                assert(s[j] == pruned(s, now)[k]);
            } else {
                assert(s[s.len() - 1] == pruned(s, now)[k]);
            }
        }
    }
}

proof fn lemma_pruned_unique(s: Seq<NatEntry>, now: u64)
    requires
        ports_unique(s),
    ensures
        ports_unique(pruned(s, now)),
    decreases s.len(),
{
    if s.len() > 0 {
        let d = s.drop_last();
        assert(ports_unique(d));
        lemma_pruned_unique(d, now);
        lemma_pruned_from(d, now);
        let r = pruned(d, now);
        if !is_expired(s.last(), now) {
            assert forall|k: int| 0 <= k < r.len() implies r[k].mangled_port != s.last().mangled_port by {
                let j = choose|j: int| 0 <= j < d.len() && d[j] == r[k];
                assert(s[j] == r[k]);
            }
            assert(ports_unique(r.push(s.last())));
        }
    }
}

proof fn lemma_pruned_all_live(s: Seq<NatEntry>, now: u64)
    requires
        forall|i: int| 0 <= i < s.len() ==> !is_expired(#[trigger] s[i], now),
    ensures
        pruned(s, now) == s,
    decreases s.len(),
{
    if s.len() > 0 {
        lemma_pruned_all_live(s.drop_last(), now);
        assert(s.drop_last().push(s.last()) =~= s);
    }
}

/// A table whose ports are unique and all taken loses nothing to pruning, unless
/// pruning frees a port.
proof fn lemma_full_table_keeps_entries(s: Seq<NatEntry>, now: u64)
    requires
        ports_unique(s),
        !has_free_port(pruned(s, now)),
    ensures
        pruned(s, now) == s,
{
    lemma_pruned_from(s, now);
    let r = pruned(s, now);
    assert forall|i: int| 0 <= i < s.len() implies !is_expired(#[trigger] s[i], now) by {
        if is_expired(s[i], now) {
            let p = s[i].mangled_port;
            assert forall|k: int| 0 <= k < r.len() implies r[k].mangled_port != p by {
                let j = choose|j: int| 0 <= j < s.len() && s[j] == r[k];
                assert(!is_expired(r[k], now));
            }
            assert(!port_in_use(r, p as int));
        }
    }
    lemma_pruned_all_live(s, now);
}

/// Pruning twice at the same instant leaves what pruning once left.
pub proof fn lemma_prune_idempotent(s: Seq<NatEntry>, now: u64)
    ensures
        pruned(pruned(s, now), now) == pruned(s, now),
{
    lemma_pruned_from(s, now);
    lemma_pruned_all_live(pruned(s, now), now);
}

/// After an outgoing translation of `p`, the entry that incoming traffic to the
/// public port it was given reaches is the one for `p`'s own source endpoint.
pub proof fn lemma_round_trip(s: Seq<NatEntry>, p: RandomTransportPacket, computer: u16, now: u64)
    requires
        ports_unique(s),
    ensures
        match outgoing_port(s, p, now) {
            Some(m) => match find_mangled(outgoing_table(s, p, computer, now), m) {
                Some(e) => e.source_ip == p.source_ip && e.source_port == p.source_port,
                None => false,
            },
            None => true,
        },
{
    if exists|i: int| is_first_source(s, p.source_ip, p.source_port, i) {
        let i = choose|i: int| is_first_source(s, p.source_ip, p.source_port, i);
        lemma_first_source_found(s, p.source_ip, p.source_port, i);
        assert(is_first_mangled(s, s[i].mangled_port, i));
        lemma_first_mangled_found(s, s[i].mangled_port, i);
    } else {
        let base = allocation_base(s, now);
        lemma_lowest_free_spec(base);
        if let Some(m) = lowest_free(base) {
            let t = base.push(new_entry(p.source_ip, p.source_port, computer, m, now, p.time_to_live));
            assert(is_first_mangled(t, m, base.len() as int));
            lemma_first_mangled_found(t, m, base.len() as int);
        }
    }
}

impl NatTable {
    /// No two entries of the table share a mangled port.
    pub open spec fn wf(&self) -> bool {
        ports_unique(self.table@)
    }

    /// Whether no entry uses `port` as its mangled port.
    pub fn has_available_port(&self, port: u16) -> (r: bool)
        ensures
            r == !port_in_use(self.table@, port as int),
    {
        let mut i: usize = 0;
        while i < self.table.len()
            invariant
                i <= self.table@.len(),
                forall|j: int| 0 <= j < i ==> self.table@[j].mangled_port != port,
            decreases self.table@.len() - i,
        {
            if self.table[i].mangled_port == port {
                return false;
            }
            i = i + 1;
        }
        true
    }

    /// The lowest port that no entry uses, or `None` when all 65536 are taken.
    pub fn extract_available_port(&self) -> (r: Option<u16>)
        ensures
            r == lowest_free(self.table@),
            match r {
                Some(p) => is_lowest_free(self.table@, p),
                None => !has_free_port(self.table@),
            },
    {
        let s = Ghost(self.table@);
        let mut used: Vec<bool> = Vec::new();
        let mut p: usize = 0;
        while p < 65536
            invariant
                p <= 65536,
                used@.len() == p,
                forall|k: int| 0 <= k < p ==> !used@[k],
            decreases 65536 - p,
        {
            used.push(false);
            p = p + 1;
        }
        let mut i: usize = 0;
        while i < self.table.len()
            invariant
                s@ == self.table@,
                i <= s@.len(),
                used@.len() == 65536,
                forall|k: int|
                    0 <= k < 65536 ==> (#[trigger] used@[k] <==> exists|j: int|
                        0 <= j < i && s@[j].mangled_port == k),
            decreases s@.len() - i,
        {
            let m = self.table[i].mangled_port as usize;
            used.set(m, true);
            assert forall|k: int| 0 <= k < 65536 implies (#[trigger] used@[k] <==> exists|j: int|
                0 <= j < i + 1 && s@[j].mangled_port == k) by {
                if k == m {
                    assert(s@[i as int].mangled_port == k);
                }
            }
            i = i + 1;
        }
        let mut q: usize = 0;
        while q < 65536
            invariant
                s@ == self.table@,
                q <= 65536,
                used@.len() == 65536,
                forall|k: int|
                    0 <= k < 65536 ==> (#[trigger] used@[k] <==> port_in_use(s@, k)),
                forall|k: int| 0 <= k < q ==> port_in_use(s@, k),
            decreases 65536 - q,
        {
            if !used[q] {
                let port = q as u16;
                assert(is_lowest_free(s@, port));
                proof {
                    lemma_lowest_free_found(s@, port);
                }
                return Some(port);
            }
            q = q + 1;
        }
        assert(!has_free_port(s@)) by {
            assert forall|p: u16| port_in_use(s@, p as int) by {
                assert(0 <= p < 65536);
            }
        }
        None
    }

    /// Drops every entry that has expired at `now`.
    pub fn prune_unnecessary_ports(&mut self, now: u64)
        ensures
            final(self).table@ == pruned(old(self).table@, now),
            final(self).name == old(self).name,
            final(self).translated_addr == old(self).translated_addr,
            old(self).wf() ==> final(self).wf(),
    {
        let s = Ghost(self.table@);
        let mut kept: Vec<NatEntry> = Vec::new();
        let mut i: usize = 0;
        while i < self.table.len()
            invariant
                s@ == self.table@,
                i <= s@.len(),
                kept@ == pruned(s@.take(i as int), now),
            decreases s@.len() - i,
        {
            let e = self.table[i];
            assert(s@.take(i + 1).drop_last() =~= s@.take(i as int));
            let age: u64 = if now >= e.mapped_on_time {
                now - e.mapped_on_time
            } else {
                0
            };
            if age < e.time_to_live {
                kept.push(e);
            }
            i = i + 1;
        }
        assert(s@.take(s@.len() as int) =~= s@);
        self.table = kept;
        proof {
            if ports_unique(s@) {
                lemma_pruned_unique(s@, now);
            }
        }
    }

    /// Allocates the lowest free port for the private endpoint `(my_ip, my_port)`
    /// of client `me`, with a lease of `duration` from `now`. When no port is free,
    /// prunes the expired entries and tries once more. Gives the public address and
    /// the port.
    pub fn give_me_a_port(&mut self, my_ip: Ipv4Addr, my_port: u16, me: u16, duration: u64, now: u64) -> (r: Option<(Ipv4Addr, u16)>)
        ensures
            final(self).name == old(self).name,
            final(self).translated_addr == old(self).translated_addr,
            old(self).wf() ==> final(self).wf(),
            match lowest_free(allocation_base(old(self).table@, now)) {
                Some(p) => {
                    &&& r == Some((old(self).translated_addr, p))
                    &&& final(self).table@ == allocation_base(old(self).table@, now).push(
                        new_entry(my_ip, my_port, me, p, now, duration),
                    )
                },
                None => {
                    &&& r is None
                    &&& final(self).table@ == allocation_base(old(self).table@, now)
                    &&& old(self).wf() ==> final(self).table@ == old(self).table@
                },
            },
    {
        let available_port = match self.extract_available_port() {
            Some(port) => port,
            None => {
                self.prune_unnecessary_ports(now);
                match self.extract_available_port() {
                    Some(port) => port,
                    None => {
                        proof {
                            if ports_unique(old(self).table@) {
                                lemma_full_table_keeps_entries(old(self).table@, now);
                            }
                        }
                        return None;
                    },
                }
            },
        };
        let entry = NatEntry {
            source_ip: my_ip,
            source_port: my_port,
            mangled_port: available_port,
            computer: me,
            mapped_on_time: now,
            time_to_live: duration,
        };
        self.table.push(entry);
        Some((self.translated_addr, available_port))
    }

    /// The first entry for the private endpoint `(ip_addr, port)`.
    pub fn found_on_nat(&self, ip_addr: Ipv4Addr, port: u16) -> (r: Option<&NatEntry>)
        ensures
            match r {
                Some(e) => find_source(self.table@, ip_addr, port) == Some(*e),
                None => find_source(self.table@, ip_addr, port) is None,
            },
    {
        let mut i: usize = 0;
        while i < self.table.len()
            invariant
                i <= self.table@.len(),
                forall|j: int|
                    0 <= j < i ==> !(self.table@[j].source_ip == ip_addr && self.table@[j].source_port
                        == port),
            decreases self.table@.len() - i,
        {
            if self.table[i].source_ip == ip_addr && self.table[i].source_port == port {
                proof {
                    lemma_first_source_found(self.table@, ip_addr, port, i as int);
                }
                return Some(&self.table[i]);
            }
            i = i + 1;
        }
        None
    }

    /// Sends an incoming packet on to the private endpoint that its destination
    /// port was mapped for. Gives the rewritten packet and the owning client.
    pub fn translate_incoming(&self, packet: RandomTransportPacket) -> (r: Option<(RandomTransportPacket, u16)>)
        ensures
            match find_mangled(self.table@, packet.destination_port) {
                Some(e) => r == Some((deliver_to(packet, e.source_ip, e.source_port), e.computer)),
                None => r is None,
            },
            r is None <==> !port_in_use(self.table@, packet.destination_port as int),
    {
        let mut out = packet;
        let mut i: usize = 0;
        while i < self.table.len()
            invariant
                out == packet,
                i <= self.table@.len(),
                forall|j: int| 0 <= j < i ==> self.table@[j].mangled_port != packet.destination_port,
            decreases self.table@.len() - i,
        {
            if self.table[i].mangled_port == out.destination_port {
                let e = self.table[i];
                proof {
                    lemma_first_mangled_found(self.table@, out.destination_port, i as int);
                }
                assert(port_in_use(self.table@, packet.destination_port as int));
                out.destination_ip = e.source_ip;
                out.destination_port = e.source_port;
                return Some((out, e.computer));
            }
            i = i + 1;
        }
        None
    }

    /// Sends an outgoing packet out from the public address: through the port
    /// already held for its source endpoint, else through a newly allocated one,
    /// leased for the packet's time to live. `None` when no port can be had.
    pub fn translate_outgoing(&mut self, packet: RandomTransportPacket, computer: u16, now: u64) -> (r: Option<RandomTransportPacket>)
        ensures
            final(self).name == old(self).name,
            final(self).translated_addr == old(self).translated_addr,
            final(self).table@ == outgoing_table(old(self).table@, packet, computer, now),
            r == match outgoing_port(old(self).table@, packet, now) {
                Some(m) => Some(send_from(packet, old(self).translated_addr, m)),
                None => None::<RandomTransportPacket>,
            },
            old(self).wf() ==> final(self).wf(),
            old(self).wf() && r is None ==> final(self).table@ == old(self).table@,
    {
        let mut out = packet;
        if let Some(nat_entry) = self.found_on_nat(out.source_ip, out.source_port) {
            out.source_port = nat_entry.mangled_port;
            out.source_ip = self.translated_addr;
            return Some(out);
        }
        proof {
            lemma_lowest_free_spec(allocation_base(self.table@, now));
        }
        match self.give_me_a_port(out.source_ip, out.source_port, computer, out.time_to_live, now) {
            Some((ip, port)) => {
                out.source_ip = ip;
                out.source_port = port;
                Some(out)
            },
            None => None,
        }
    }
}

} // verus!
