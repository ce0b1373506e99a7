//! Which process holds which port: folding what the socket table gave
//! into a map from ports to process ids.

use vstd::prelude::*;

use std::collections::HashMap;

use crate::port::{Port, Protocol};
use vstd::std_specs::hash::spec_hash_map_iter;
use vstd::std_specs::iter::IteratorSpec;

verus! {

broadcast use vstd::std_specs::hash::group_hash_axioms;

/// `netstat2::error::Error`, the error of reading the socket table, carried
/// through as an opaque value.
#[verifier::external_type_specification]
#[verifier::external_body]
pub struct ExNetstatError(netstat2::error::Error);

/// What the library reads of one socket: its local port with protocol, and
/// the ids of the processes associated with it.
pub struct SocketEntry {
    pub port: Port,
    pub associated_pids: Vec<u32>,
}

/// The process a socket is attributed to: its first associated process id,
/// unless it has none or that id is 0 (an owner that could not be resolved).
pub open spec fn socket_owner(e: SocketEntry) -> Option<u32> {
    if e.associated_pids@.len() > 0 && e.associated_pids@[0] != 0 {
        Some(e.associated_pids@[0])
    } else {
        None
    }
}

/// The map that the sockets give, read in order: each socket with an owner
/// maps its port to that owner, and a later socket on the same port wins.
pub open spec fn port_map_of(sockets: Seq<SocketEntry>) -> Map<Port, u32>
    decreases sockets.len(),
{
    if sockets.len() == 0 {
        Map::empty()
    } else {
        let m = port_map_of(sockets.drop_last());
        match socket_owner(sockets.last()) {
            Some(pid) => m.insert(sockets.last().port, pid),
            None => m,
        }
    }
}

/// The map whose pairs are those of `s` (keyed by the first component).
pub open spec fn pairs_map(s: Seq<(Port, u32)>) -> Map<Port, u32> {
    Map::new(
        |p: Port| exists|i: int| 0 <= i < s.len() && s[i].0 == p,
        |p: Port| s[choose|i: int| 0 <= i < s.len() && s[i].0 == p].1,
    )
}

/// No two pairs of `s` have the same port.
pub open spec fn unique_ports(s: Seq<(Port, u32)>) -> bool {
    forall|i: int, j: int| 0 <= i < s.len() && 0 <= j < s.len() && i != j ==> s[i].0 != s[j].0
}

/// The integer under which a port is kept: twice its number, plus one for UDP.
pub open spec fn port_key(p: Port) -> u32 {
    match p.protocol {
        Protocol::Tcp => (2 * p.port) as u32,
        Protocol::Udp => (2 * p.port + 1) as u32,
    }
}

/// The port kept under an integer key.
pub open spec fn key_port(k: u32) -> Port {
    Port { port: (k / 2) as u16, protocol: if k % 2 == 0 { Protocol::Tcp } else { Protocol::Udp } }
}

/// Whether `k` is the key of some port.
pub open spec fn is_port_key(k: u32) -> bool {
    k < 131072
}

proof fn lemma_port_key_round_trip(p: Port, k: u32)
    ensures
        is_port_key(port_key(p)),
        key_port(port_key(p)) == p,
        is_port_key(k) ==> port_key(key_port(k)) == k,
{
}

fn key_of(p: Port) -> (k: u32)
    ensures
        k == port_key(p),
{
    match p.protocol {
        Protocol::Tcp => 2 * (p.port as u32),
        Protocol::Udp => 2 * (p.port as u32) + 1,
    }
}

fn port_of(k: u32) -> (p: Port)
    requires
        is_port_key(k),
    ensures
        p == key_port(k),
{
    Port { port: (k / 2) as u16, protocol: if k % 2 == 0 { Protocol::Tcp } else { Protocol::Udp } }
}

/// A map from ports to the ids of the processes that hold them.
pub struct PortMap {
    by_key: HashMap<u32, u32>,
}

impl View for PortMap {
    type V = Map<Port, u32>;

    closed spec fn view(&self) -> Map<Port, u32> {
        Map::new(|p: Port| self.by_key@.contains_key(port_key(p)), |p: Port| self.by_key@[port_key(p)])
    }
}

pub proof fn lemma_pairs_map_at(s: Seq<(Port, u32)>, i: int)
    requires
        unique_ports(s),
        0 <= i < s.len(),
    ensures
        pairs_map(s).contains_key(s[i].0),
        pairs_map(s)[s[i].0] == s[i].1,
{
    let p = s[i].0;
    assert(exists|k: int| 0 <= k < s.len() && s[k].0 == p);
}

impl PortMap {
    #[verifier::type_invariant]
    closed spec fn well_formed(self) -> bool {
        forall|k: u32| #[trigger] self.by_key@.contains_key(k) ==> is_port_key(k)
    }

    /// The empty map.
    pub fn new() -> (m: Self)
        ensures
            m@ == Map::<Port, u32>::empty(),
    {
        let m = PortMap { by_key: HashMap::new() };
        assert(m@ =~= Map::<Port, u32>::empty());
        m
    }

    /// Maps `port` to `pid`, replacing what it mapped to before.
    pub fn insert(&mut self, port: Port, pid: u32)
        ensures
            final(self)@ == old(self)@.insert(port, pid),
    {
        proof {
            use_type_invariant(&*self);
            lemma_port_key_round_trip(port, 0);
        }
        let k = key_of(port);
        let mut map: HashMap<u32, u32> = HashMap::new();
        std::mem::swap(&mut map, &mut self.by_key);
        map.insert(k, pid);
        self.by_key = map;
        proof {
            assert forall|q: Port| #[trigger] port_key(q) == k implies q == port by {
                lemma_port_key_round_trip(q, 0);
            }
            assert(self@ =~= old(self)@.insert(port, pid));
        }
    }

    /// The process id that `port` maps to, if any.
    pub fn get(&self, port: Port) -> (r: Option<u32>)
        ensures
            r == (if self@.contains_key(port) { Some(self@[port]) } else { None::<u32> }),
    {
        let k = key_of(port);
        match self.by_key.get(&k) {
            Some(v) => Some(*v),
            None => None,
        }
    }

    /// Every pair of the map, each port once, in no particular order.
    pub fn pairs(&self) -> (v: Vec<(Port, u32)>)
        ensures
            unique_ports(v@),
            pairs_map(v@) == self@,
    {
        proof {
            use_type_invariant(self);
        }
        let mut out: Vec<(Port, u32)> = Vec::new();
        for entry in it: self.by_key.iter()
            invariant
                forall|k: u32| #[trigger] self.by_key@.contains_key(k) ==> is_port_key(k),
                it.seq() == spec_hash_map_iter(&self.by_key).remaining(),
                out@.len() == it.index(),
                forall|i: int| 0 <= i < it.index() ==> #[trigger] out@[i] == (key_port(*it.seq()[i].0), *it.seq()[i].1),
        {
            let (k, v) = entry;
            proof {
                assert(self.by_key@.contains_key(*k));
            }
            out.push((port_of(*k), *v));
        }
        proof {
            let seq = spec_hash_map_iter(&self.by_key).remaining();
            assert forall|i: int, j: int| 0 <= i < out@.len() && 0 <= j < out@.len() && i != j implies out@[i].0 != out@[j].0 by {
                if out@[i].0 == out@[j].0 {
                    let ki = *seq[i].0;
                    let kj = *seq[j].0;
                    assert(self.by_key@.contains_key(ki));
                    assert(self.by_key@.contains_key(kj));
                    lemma_port_key_round_trip(key_port(ki), ki);
                    lemma_port_key_round_trip(key_port(kj), kj);
                    assert(ki == kj);
                    assert(self.by_key@[ki] == *seq[i].1);
                    assert(self.by_key@[kj] == *seq[j].1);
                    assert(seq[i] == seq[j]);
                }
            }
            assert forall|p: Port| #[trigger] pairs_map(out@).contains_key(p) == self@.contains_key(p) by {
                lemma_port_key_round_trip(p, 0);
                if pairs_map(out@).contains_key(p) {
                    let i = choose|i: int| 0 <= i < out@.len() && out@[i].0 == p;
                    let ki = *seq[i].0;
                    assert(self.by_key@.contains_key(ki));
                    lemma_port_key_round_trip(p, ki);
                }
                if self@.contains_key(p) {
                    let k = port_key(p);
                    assert(self.by_key@.contains_key(k));
                    assert(seq.contains((&k, &self.by_key@[k])));
                    let i = choose|i: int| 0 <= i < seq.len() && seq[i] == (&k, &self.by_key@[k]);
                    assert(out@[i].0 == p);
                }
            }
            assert forall|p: Port| #[trigger] pairs_map(out@).contains_key(p) implies pairs_map(out@)[p] == self@[p] by {
                let i = choose|i: int| 0 <= i < out@.len() && out@[i].0 == p;
                lemma_pairs_map_at(out@, i);
                let ki = *seq[i].0;
                assert(self.by_key@.contains_key(ki));
                lemma_port_key_round_trip(p, ki);
            }
            assert(pairs_map(out@) =~= self@);
        }
        out
    }
}

/// Every process id in the map that sockets give is nonzero: sockets without
/// an owner, or with owner 0, never enter it.
pub proof fn lemma_port_map_owners_nonzero(sockets: Seq<SocketEntry>)
    ensures
        forall|p: Port| #[trigger] port_map_of(sockets).contains_key(p) ==> port_map_of(sockets)[p] != 0,
    decreases sockets.len(),
{
    if sockets.len() > 0 {
        let prev = sockets.drop_last();
        lemma_port_map_owners_nonzero(prev);
        assert forall|p: Port| #[trigger] port_map_of(sockets).contains_key(p) implies port_map_of(sockets)[p] != 0 by {
            match socket_owner(sockets.last()) {
                Some(pid) => {
                    if p != sockets.last().port {
                        assert(port_map_of(prev).contains_key(p));
                    }
                },
                None => {
                    assert(port_map_of(prev).contains_key(p));
                },
            }
        }
    }
}

/// A port is in the map exactly when some socket on it has an owner, and it
/// maps to the owner of the last such socket.
pub proof fn lemma_port_map_gives_last_owner(sockets: Seq<SocketEntry>, p: Port)
    ensures
        port_map_of(sockets).contains_key(p) <==> exists|i: int|
            0 <= i < sockets.len() && #[trigger] sockets[i].port == p && socket_owner(sockets[i]) is Some,
        port_map_of(sockets).contains_key(p) ==> exists|i: int|
            0 <= i < sockets.len() && #[trigger] sockets[i].port == p
                && socket_owner(sockets[i]) == Some(port_map_of(sockets)[p])
                && forall|j: int| i < j < sockets.len() && #[trigger] sockets[j].port == p ==> socket_owner(sockets[j]) is None,
    decreases sockets.len(),
{
    if sockets.len() > 0 {
        let prev = sockets.drop_last();
        let n = sockets.len() - 1;
        lemma_port_map_gives_last_owner(prev, p);
        assert forall|i: int| 0 <= i < n implies #[trigger] prev[i] == sockets[i] by {}
        let e = sockets.last();
        if e.port == p && socket_owner(e) is Some {
            assert(sockets[n].port == p);
        } else {
            if port_map_of(prev).contains_key(p) {
                let i = choose|i: int|
                    0 <= i < prev.len() && #[trigger] prev[i].port == p
                        && socket_owner(prev[i]) == Some(port_map_of(prev)[p])
                        && forall|j: int| i < j < prev.len() && #[trigger] prev[j].port == p ==> socket_owner(prev[j]) is None;
                assert(sockets[i] == prev[i]);
                assert forall|j: int| i < j < sockets.len() && #[trigger] sockets[j].port == p implies socket_owner(sockets[j]) is None by {
                    if j < n {
                        assert(sockets[j] == prev[j]);
                    }
                }
            }
            if exists|i: int| 0 <= i < sockets.len() && #[trigger] sockets[i].port == p && socket_owner(sockets[i]) is Some {
                let i = choose|i: int| 0 <= i < sockets.len() && #[trigger] sockets[i].port == p && socket_owner(sockets[i]) is Some;
                assert(i < n);
                assert(prev[i] == sockets[i]);
            }
        }
    }
}

/// A socket belongs to its first associated process id, whenever it has
/// one and it is not 0: a port is in the map exactly when some socket on it
/// has a nonempty list of ids whose first is nonzero, and it maps to the
/// first id of the last such socket. Ids after the first never count.
pub proof fn lemma_port_map_takes_first_pid(sockets: Seq<SocketEntry>, p: Port)
    ensures
        port_map_of(sockets).contains_key(p) <==> exists|i: int|
            0 <= i < sockets.len() && #[trigger] sockets[i].port == p && sockets[i].associated_pids@.len() > 0
                && sockets[i].associated_pids@[0] != 0,
        port_map_of(sockets).contains_key(p) ==> exists|i: int|
            0 <= i < sockets.len() && #[trigger] sockets[i].port == p && sockets[i].associated_pids@.len() > 0
                && sockets[i].associated_pids@[0] != 0
                && port_map_of(sockets)[p] == sockets[i].associated_pids@[0]
                && forall|j: int| i < j < sockets.len() && #[trigger] sockets[j].port == p
                    ==> sockets[j].associated_pids@.len() == 0 || sockets[j].associated_pids@[0] == 0,
{
    lemma_port_map_gives_last_owner(sockets, p);
}

/// The map that `sockets` give, as `port_map_of` says.
pub fn port_map_from_sockets(sockets: &Vec<SocketEntry>) -> (m: PortMap)
    ensures
        m@ == port_map_of(sockets@),
{
    let mut m = PortMap::new();
    let mut i: usize = 0;
    while i < sockets.len()
        invariant
            i <= sockets@.len(),
            m@ == port_map_of(sockets@.subrange(0, i as int)),
        decreases sockets@.len() - i,
    {
        let entry = &sockets[i];
        proof {
            assert(sockets@.subrange(0, i + 1).drop_last() =~= sockets@.subrange(0, i as int));
            assert(sockets@.subrange(0, i + 1).last() == sockets@[i as int]);
        }
        if entry.associated_pids.len() > 0 && entry.associated_pids[0] != 0 {
            m.insert(entry.port, entry.associated_pids[0]);
        }
        i = i + 1;
    }
    proof {
        assert(sockets@.subrange(0, sockets@.len() as int) =~= sockets@);
    }
    m
}

/// The ports in use and the process that holds each, from what reading the
/// socket table gave: the map that the sockets give when it could be read,
/// and the empty map when it could not.
pub fn get_port_map(table: Result<Vec<SocketEntry>, netstat2::error::Error>) -> (m: PortMap)
    ensures
        m@ == match table {
            Ok(sockets) => port_map_of(sockets@),
            Err(_) => Map::<Port, u32>::empty(),
        },
        forall|p: Port| #[trigger] m@.contains_key(p) ==> m@[p] != 0,
{
    match table {
        Ok(sockets) => {
            let m = port_map_from_sockets(&sockets);
            proof {
                lemma_port_map_owners_nonzero(sockets@);
            }
            m
        },
        Err(_) => PortMap::new(),
    }
}

} // verus!
