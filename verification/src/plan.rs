//! Choosing the processes to act on, in the order they are acted on, and
//! what restarting one of them runs.

use vstd::prelude::*;

use crate::errors::Errors;
use crate::finder::{lemma_pairs_map_at, pairs_map, unique_ports, PortMap};
use crate::port::{Port, Protocol};

verus! {

broadcast use vstd::seq_lib::group_to_multiset_ensures;

/// The rank of a protocol in the order of targets: TCP before UDP.
pub open spec fn protocol_rank(p: Protocol) -> int {
    match p {
        Protocol::Tcp => 0,
        Protocol::Udp => 1,
    }
}

/// The order in which targets (a port and the id of its process) are acted
/// on: by port number, then protocol, then process id.
pub open spec fn target_le(a: (Port, u32), b: (Port, u32)) -> bool {
    ||| a.0.port < b.0.port
    ||| (a.0.port == b.0.port && protocol_rank(a.0.protocol) < protocol_rank(b.0.protocol))
    ||| (a.0.port == b.0.port && a.0.protocol == b.0.protocol && a.1 <= b.1)
}

/// Whether targets are in the order of `target_le`.
pub open spec fn sorted_targets(s: Seq<(Port, u32)>) -> bool {
    forall|i: int, j: int| 0 <= i < j < s.len() ==> target_le(#[trigger] s[i], #[trigger] s[j])
}

proof fn lemma_target_le_total(a: (Port, u32), b: (Port, u32))
    ensures
        target_le(a, b) || target_le(b, a),
        target_le(a, b) && target_le(b, a) ==> a == b,
{
}

proof fn lemma_target_le_transitive(a: (Port, u32), b: (Port, u32), c: (Port, u32))
    requires
        target_le(a, b),
        target_le(b, c),
    ensures
        target_le(a, c),
{
}

fn target_le_exec(a: &(Port, u32), b: &(Port, u32)) -> (r: bool)
    ensures
        r == target_le(*a, *b),
{
    if a.0.port != b.0.port {
        return a.0.port < b.0.port;
    }
    let ra: u8 = match a.0.protocol {
        Protocol::Tcp => 0,
        Protocol::Udp => 1,
    };
    let rb: u8 = match b.0.protocol {
        Protocol::Tcp => 0,
        Protocol::Udp => 1,
    };
    if ra != rb {
        return ra < rb;
    }
    a.1 <= b.1
}

/// The targets of `v` in the order of `target_le`.
pub fn sort_targets(v: &Vec<(Port, u32)>) -> (r: Vec<(Port, u32)>)
    ensures
        sorted_targets(r@),
        r@.to_multiset() == v@.to_multiset(),
{
    let mut out: Vec<(Port, u32)> = Vec::new();
    let mut i: usize = 0;
    while i < v.len()
        invariant
            i <= v@.len(),
            sorted_targets(out@),
            out@.to_multiset() == v@.subrange(0, i as int).to_multiset(),
        decreases v@.len() - i,
    {
        let x = v[i];
        let mut k: usize = 0;
        while k < out.len() && target_le_exec(&out[k], &x)
            invariant
                k <= out@.len(),
                forall|m: int| 0 <= m < k ==> target_le(#[trigger] out@[m], x),
            decreases out@.len() - k,
        {
            k = k + 1;
        }
        let ghost before = out@;
        out.insert(k, x);
        proof {
            if k < before.len() {
                assert(!target_le(before[k as int], x));
                lemma_target_le_total(before[k as int], x);
            }
            assert forall|a: int, b: int| 0 <= a < b < out@.len() implies target_le(#[trigger] out@[a], #[trigger] out@[b]) by {
                if a < k && b > k {
                    lemma_target_le_total(before[k as int], x);
                    lemma_target_le_transitive(out@[a], x, out@[b]);
                } else if a == k && b > k {
                    assert(out@[b] == before[b - 1]);
                    if b - 1 > k {
                        assert(target_le(before[k as int], before[b - 1]));
                        lemma_target_le_total(before[k as int], x);
                        lemma_target_le_transitive(x, before[k as int], before[b - 1]);
                    }
                } else if a > k {
                    assert(out@[a] == before[a - 1]);
                    assert(out@[b] == before[b - 1]);
                }
            }
            vstd::seq_lib::to_multiset_insert(before, k as int, x);
            assert(v@.subrange(0, i + 1) =~= v@.subrange(0, i as int).push(x));
        }
        i = i + 1;
    }
    proof {
        assert(v@.subrange(0, v@.len() as int) =~= v@);
    }
    out
}

/// Whether `s` lists the map `m`: every pair of `m` once.
pub open spec fn is_enumeration(s: Seq<(Port, u32)>, m: Map<Port, u32>) -> bool {
    unique_ports(s) && pairs_map(s) == m
}

/// Reordering a list of a map keeps it a list of that map.
pub proof fn lemma_enumeration_reordered(s: Seq<(Port, u32)>, t: Seq<(Port, u32)>)
    requires
        unique_ports(s),
        s.to_multiset() == t.to_multiset(),
    ensures
        unique_ports(t),
        pairs_map(t) == pairs_map(s),
{
    assert(s.no_duplicates());
    s.lemma_multiset_has_no_duplicates();
    t.lemma_multiset_has_no_duplicates_conv();
    assert forall|x: (Port, u32)| t.contains(x) implies s.contains(x) by {
        assert(t.to_multiset().count(x) > 0);
    }
    assert forall|x: (Port, u32)| s.contains(x) implies t.contains(x) by {
        assert(s.to_multiset().count(x) > 0);
    }
    assert forall|i: int, j: int| 0 <= i < t.len() && 0 <= j < t.len() && i != j implies t[i].0 != t[j].0 by {
        if t[i].0 == t[j].0 {
            assert(t.contains(t[i]));
            assert(t.contains(t[j]));
            let a = choose|a: int| 0 <= a < s.len() && s[a] == t[i];
            let b = choose|b: int| 0 <= b < s.len() && s[b] == t[j];
            assert(t[i] != t[j]);
        }
    }
    assert forall|p: Port| #[trigger] pairs_map(t).contains_key(p) == pairs_map(s).contains_key(p) by {
        if pairs_map(t).contains_key(p) {
            let k = choose|k: int| 0 <= k < t.len() && t[k].0 == p;
            assert(t.contains(t[k]));
            let a = choose|a: int| 0 <= a < s.len() && s[a] == t[k];
            assert(s[a].0 == p);
        }
        if pairs_map(s).contains_key(p) {
            let k = choose|k: int| 0 <= k < s.len() && s[k].0 == p;
            assert(s.contains(s[k]));
            let a = choose|a: int| 0 <= a < t.len() && t[a] == s[k];
            assert(t[a].0 == p);
        }
    }
    assert forall|p: Port| #[trigger] pairs_map(t).contains_key(p) implies pairs_map(t)[p] == pairs_map(s)[p] by {
        let k = choose|k: int| 0 <= k < t.len() && t[k].0 == p;
        lemma_pairs_map_at(t, k);
        assert(t.contains(t[k]));
        let a = choose|a: int| 0 <= a < s.len() && s[a] == t[k];
        lemma_pairs_map_at(s, a);
    }
    assert(pairs_map(t) =~= pairs_map(s));
}

/// A list of a map is as long as the map.
pub proof fn lemma_enumeration_len(s: Seq<(Port, u32)>, m: Map<Port, u32>)
    requires
        is_enumeration(s, m),
    ensures
        s.len() == m.len(),
{
    let ports = s.map_values(|x: (Port, u32)| x.0);
    assert(ports.no_duplicates());
    ports.unique_seq_to_set();
    assert(ports.to_set() =~= m.dom()) by {
        assert forall|p: Port| ports.to_set().contains(p) implies m.dom().contains(p) by {
            let k = choose|k: int| 0 <= k < ports.len() && ports[k] == p;
            assert(s[k].0 == p);
        }
        assert forall|p: Port| m.dom().contains(p) implies ports.to_set().contains(p) by {
            let k = choose|k: int| 0 <= k < s.len() && s[k].0 == p;
            assert(ports[k] == p);
        }
    }
}

/// The targets that the listed ports give, in the order listed: each port
/// that some process holds, with that process. A port that no process holds
/// is skipped when `ignore_unused` is set and is the error otherwise (the
/// first such port).
pub open spec fn requested_targets(ports: Seq<Port>, map: Map<Port, u32>, ignore_unused: bool) -> Result<Seq<(Port, u32)>, Port>
    decreases ports.len(),
{
    if ports.len() == 0 {
        Ok(Seq::empty())
    } else {
        match requested_targets(ports.drop_last(), map, ignore_unused) {
            Err(p) => Err(p),
            Ok(s) => {
                let p = ports.last();
                if map.contains_key(p) {
                    Ok(s.push((p, map[p])))
                } else if ignore_unused {
                    Ok(s)
                } else {
                    Err(p)
                }
            },
        }
    }
}

/// Chooses the targets to act on, sorted by `target_le`. With `all`, they
/// are all the pairs of `map`; otherwise those that `requested_targets`
/// gives for `ports`, where a port no process holds is an error unless
/// `ignore_unused` is set. With `attach`, more than one target is an error.
pub fn select_targets(all: bool, ports: &Vec<Port>, ignore_unused: bool, attach: bool, map: &PortMap) -> (r: Result<Vec<(Port, u32)>, Errors>)
    ensures
        attach ==> (r matches Ok(v) ==> v@.len() <= 1),
        all ==> if attach && map@.len() > 1 {
            r matches Err(Errors::CannotUseAttach(n)) && n == map@.len()
        } else {
            r matches Ok(v) && sorted_targets(v@) && is_enumeration(v@, map@)
        },
        !all ==> match requested_targets(ports@, map@, ignore_unused) {
            Err(p) => r matches Err(Errors::PortNotInUse(q)) && q == p,
            Ok(s) => if attach && s.len() > 1 {
                r matches Err(Errors::CannotUseAttach(n)) && n == s.len()
            } else {
                r matches Ok(v) && sorted_targets(v@) && v@.to_multiset() == s.to_multiset()
            },
        },
        !all ==> (r matches Ok(v) ==> forall|k: int| 0 <= k < v@.len() ==> {
            &&& ports@.contains(#[trigger] v@[k].0)
            &&& map@.contains_key(v@[k].0)
            &&& map@[v@[k].0] == v@[k].1
        }),
{
    let chosen: Vec<(Port, u32)> = if all {
        map.pairs()
    } else {
        let mut picked: Vec<(Port, u32)> = Vec::new();
        let mut i: usize = 0;
        while i < ports.len()
            invariant
                !all,
                i <= ports@.len(),
                requested_targets(ports@.subrange(0, i as int), map@, ignore_unused) == Ok::<Seq<(Port, u32)>, Port>(picked@),
            decreases ports@.len() - i,
        {
            let p = ports[i];
            proof {
                assert(ports@.subrange(0, i + 1).drop_last() =~= ports@.subrange(0, i as int));
            }
            match map.get(p) {
                Some(pid) => {
                    picked.push((p, pid));
                },
                None => {
                    if !ignore_unused {
                        proof {
                            lemma_requested_error_stays(ports@, map@, ignore_unused, i as int + 1);
                        }
                        return Err(Errors::PortNotInUse(p));
                    }
                },
            }
            i = i + 1;
        }
        proof {
            assert(ports@.subrange(0, ports@.len() as int) =~= ports@);
        }
        picked
    };
    let sorted = sort_targets(&chosen);
    proof {
        assert(sorted@.len() == sorted@.to_multiset().len());
        assert(chosen@.len() == chosen@.to_multiset().len());
        if all {
            lemma_enumeration_reordered(chosen@, sorted@);
            lemma_enumeration_len(sorted@, map@);
        } else {
            lemma_requested_targets_are_listed(ports@, map@, ignore_unused);
            assert forall|k: int| 0 <= k < sorted@.len() implies {
                &&& ports@.contains(#[trigger] sorted@[k].0)
                &&& map@.contains_key(sorted@[k].0)
                &&& map@[sorted@[k].0] == sorted@[k].1
            } by {
                assert(sorted@.contains(sorted@[k]));
                assert(sorted@.to_multiset().count(sorted@[k]) > 0);
                assert(chosen@.contains(sorted@[k]));
                let a = choose|a: int| 0 <= a < chosen@.len() && chosen@[a] == sorted@[k];
                assert(chosen@[a].0 == sorted@[k].0);
            }
        }
    }
    if attach && sorted.len() > 1 {
        return Err(Errors::CannotUseAttach(sorted.len()));
    }
    Ok(sorted)
}

/// What the listed ports give is made of the listed ports alone, each with
/// the process id that the map gives that very port, and every listed port
/// that the map holds is among them. The ports are refused exactly when one
/// of them is absent from the map and `ignore_unused` is not set, and then
/// with the first absent port.
pub proof fn lemma_requested_targets_are_listed(ports: Seq<Port>, map: Map<Port, u32>, ignore_unused: bool)
    ensures
        requested_targets(ports, map, ignore_unused) matches Ok(s) ==> forall|k: int| 0 <= k < s.len() ==> {
            &&& ports.contains(#[trigger] s[k].0)
            &&& map.contains_key(s[k].0)
            &&& map[s[k].0] == s[k].1
        },
        requested_targets(ports, map, ignore_unused) matches Ok(s) ==> forall|k: int|
            0 <= k < ports.len() && map.contains_key(#[trigger] ports[k]) ==> s.contains((ports[k], map[ports[k]])),
        requested_targets(ports, map, ignore_unused) is Err <==> (!ignore_unused && exists|k: int|
            0 <= k < ports.len() && !map.contains_key(#[trigger] ports[k])),
        requested_targets(ports, map, ignore_unused) matches Err(q) ==> exists|k: int| {
            &&& 0 <= k < ports.len()
            &&& #[trigger] ports[k] == q
            &&& !map.contains_key(q)
            &&& forall|j: int| 0 <= j < k ==> map.contains_key(#[trigger] ports[j])
        },
    decreases ports.len(),
{
    if ports.len() > 0 {
        let prev = ports.drop_last();
        let n = ports.len() - 1;
        let p = ports.last();
        lemma_requested_targets_are_listed(prev, map, ignore_unused);
        assert forall|k: int| 0 <= k < n implies #[trigger] prev[k] == ports[k] by {}
        assert(ports[n] == p);
        match requested_targets(prev, map, ignore_unused) {
            Err(q) => {
                let k = choose|k: int| {
                    &&& 0 <= k < prev.len()
                    &&& #[trigger] prev[k] == q
                    &&& !map.contains_key(q)
                    &&& forall|j: int| 0 <= j < k ==> map.contains_key(#[trigger] prev[j])
                };
                assert(ports[k] == q);
                assert forall|j: int| 0 <= j < k implies map.contains_key(#[trigger] ports[j]) by {
                    assert(prev[j] == ports[j]);
                }
            },
            Ok(s) => {
                if map.contains_key(p) {
                    let s2 = s.push((p, map[p]));
                    assert forall|k: int| 0 <= k < s2.len() implies {
                        &&& ports.contains(#[trigger] s2[k].0)
                        &&& map.contains_key(s2[k].0)
                        &&& map[s2[k].0] == s2[k].1
                    } by {
                        if k < s.len() {
                            assert(s2[k] == s[k]);
                            assert(prev.contains(s[k].0));
                            let a = choose|a: int| 0 <= a < prev.len() && prev[a] == s[k].0;
                            assert(ports[a] == s[k].0);
                        } else {
                            assert(ports[n] == s2[k].0);
                        }
                    }
                    assert forall|k: int| 0 <= k < ports.len() && map.contains_key(#[trigger] ports[k]) implies s2.contains(
                        (ports[k], map[ports[k]]),
                    ) by {
                        if k < n {
                            assert(prev[k] == ports[k]);
                            assert(s.contains((prev[k], map[prev[k]])));
                            let a = choose|a: int| 0 <= a < s.len() && s[a] == (prev[k], map[prev[k]]);
                            assert(s2[a] == s[a]);
                        } else {
                            assert(s2[s.len() as int] == (ports[k], map[ports[k]]));
                        }
                    }
                    if exists|k: int| 0 <= k < ports.len() && !map.contains_key(#[trigger] ports[k]) {
                        let k = choose|k: int| 0 <= k < ports.len() && !map.contains_key(#[trigger] ports[k]);
                        assert(k < n);
                        assert(!map.contains_key(prev[k]));
                    }
                } else if ignore_unused {
                    assert forall|k: int| 0 <= k < s.len() implies {
                        &&& ports.contains(#[trigger] s[k].0)
                        &&& map.contains_key(s[k].0)
                        &&& map[s[k].0] == s[k].1
                    } by {
                        assert(prev.contains(s[k].0));
                        let a = choose|a: int| 0 <= a < prev.len() && prev[a] == s[k].0;
                        assert(ports[a] == s[k].0);
                    }
                    assert forall|k: int| 0 <= k < ports.len() && map.contains_key(#[trigger] ports[k]) implies s.contains(
                        (ports[k], map[ports[k]]),
                    ) by {
                        assert(k < n);
                        assert(prev[k] == ports[k]);
                    }
                } else {
                    assert(!map.contains_key(ports[n]));
                    assert forall|j: int| 0 <= j < n implies map.contains_key(#[trigger] ports[j]) by {
                        assert(prev[j] == ports[j]);
                        if !map.contains_key(prev[j]) {
                            assert(exists|k: int| 0 <= k < prev.len() && !map.contains_key(#[trigger] prev[k]));
                        }
                    }
                }
            },
        }
    }
}

/// Once the listed ports give an error, more ports keep that error.
proof fn lemma_requested_error_stays(ports: Seq<Port>, map: Map<Port, u32>, ignore_unused: bool, k: int)
    requires
        0 <= k <= ports.len(),
        requested_targets(ports.subrange(0, k), map, ignore_unused) is Err,
    ensures
        requested_targets(ports, map, ignore_unused) == requested_targets(ports.subrange(0, k), map, ignore_unused),
    decreases ports.len() - k,
{
    if k < ports.len() {
        assert(ports.subrange(0, k + 1).drop_last() =~= ports.subrange(0, k));
        lemma_requested_error_stays(ports, map, ignore_unused, k + 1);
    } else {
        assert(ports.subrange(0, k) =~= ports);
    }
}


/// What restarting a process runs, from its executable (when known) and its
/// command line: the executable, or else the first word of the command line,
/// with the words of the command line after the first as arguments. There
/// is nothing to run when the command line is empty.
pub fn restart_command<T: Copy>(exe: Option<T>, cmd: &[T]) -> (r: Option<(T, &[T])>)
    ensures
        cmd@.len() == 0 <==> r is None,
        r matches Some((program, args)) ==> {
            &&& program == match exe {
                Some(e) => e,
                None => cmd@[0],
            }
            &&& args@ == cmd@.subrange(1, cmd@.len() as int)
        },
{
    if cmd.len() == 0 {
        return None;
    }
    let args = vstd::slice::slice_subrange(cmd, 1, cmd.len());
    let program = match exe {
        Some(e) => e,
        None => cmd[0],
    };
    Some((program, args))
}

} // verus!
