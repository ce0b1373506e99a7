use portproc::errors::Errors;
use portproc::finder::{get_port_map, port_map_from_sockets, PortMap, SocketEntry};
use portproc::plan::{restart_command, select_targets, sort_targets};
use portproc::port::{Port, Protocol};

fn tcp(port: u16) -> Port {
    Port { port, protocol: Protocol::Tcp }
}

fn udp(port: u16) -> Port {
    Port { port, protocol: Protocol::Udp }
}

fn entry(port: Port, pids: &[u32]) -> SocketEntry {
    SocketEntry { port, associated_pids: pids.to_vec() }
}

#[test]
fn later_sockets_win_and_unowned_ones_are_skipped() {
    let sockets = vec![
        entry(tcp(80), &[10, 11]),
        entry(tcp(80), &[0]),
        entry(udp(53), &[]),
        entry(udp(53), &[7]),
        entry(tcp(80), &[12]),
        entry(tcp(22), &[0, 5]),
    ];
    let map = port_map_from_sockets(&sockets);
    assert_eq!(map.get(tcp(80)), Some(12));
    assert_eq!(map.get(udp(53)), Some(7));
    assert_eq!(map.get(tcp(22)), None);
    assert_eq!(map.get(udp(80)), None);
    assert_eq!(map.pairs().len(), 2);
}

#[test]
fn a_write_is_read_back() {
    let mut map = PortMap::new();
    assert_eq!(map.get(tcp(1)), None);
    map.insert(tcp(1), 100);
    map.insert(udp(1), 200);
    map.insert(tcp(1), 300);
    assert_eq!(map.get(tcp(1)), Some(300));
    assert_eq!(map.get(udp(1)), Some(200));
    assert_eq!(map.pairs().len(), 2);
}

#[test]
fn a_read_table_gives_its_map_and_an_unreadable_one_the_empty_map() {
    let map = get_port_map(Ok(vec![entry(tcp(80), &[0]), entry(udp(53), &[8]), entry(tcp(80), &[9, 1])]));
    assert_eq!(map.get(tcp(80)), Some(9));
    assert_eq!(map.get(udp(53)), Some(8));
    assert_eq!(map.pairs().len(), 2);
    let empty = get_port_map(Err(netstat2::error::Error::NetLinkError));
    assert!(empty.pairs().is_empty());
}

fn sample_map() -> PortMap {
    let mut map = PortMap::new();
    map.insert(udp(53), 9);
    map.insert(tcp(8080), 3);
    map.insert(tcp(53), 4);
    map.insert(tcp(22), 1);
    map
}

#[test]
fn all_targets_are_sorted_by_port_then_protocol() {
    let chosen = select_targets(true, &vec![], false, false, &sample_map()).unwrap();
    assert_eq!(chosen, vec![(tcp(22), 1), (tcp(53), 4), (udp(53), 9), (tcp(8080), 3)]);
}

#[test]
fn listed_targets_keep_repeats_and_are_sorted() {
    let ports = vec![tcp(8080), udp(53), tcp(8080)];
    let chosen = select_targets(false, &ports, false, false, &sample_map()).unwrap();
    assert_eq!(chosen, vec![(udp(53), 9), (tcp(8080), 3), (tcp(8080), 3)]);
}

#[test]
fn an_unused_port_is_an_error_unless_ignored() {
    let ports = vec![tcp(22), tcp(9), udp(9)];
    assert!(matches!(
        select_targets(false, &ports, false, false, &sample_map()),
        Err(Errors::PortNotInUse(p)) if p == tcp(9)
    ));
    let chosen = select_targets(false, &ports, true, false, &sample_map()).unwrap();
    assert_eq!(chosen, vec![(tcp(22), 1)]);
}

#[test]
fn attach_needs_at_most_one_target() {
    assert!(matches!(
        select_targets(true, &vec![], false, true, &sample_map()),
        Err(Errors::CannotUseAttach(4))
    ));
    let one = select_targets(false, &vec![tcp(22)], false, true, &sample_map()).unwrap();
    assert_eq!(one, vec![(tcp(22), 1)]);
    let none = select_targets(false, &vec![tcp(9)], true, true, &sample_map()).unwrap();
    assert!(none.is_empty());
}

#[test]
fn sorting_orders_by_pid_last() {
    let sorted = sort_targets(&vec![(tcp(5), 9), (udp(5), 1), (tcp(5), 2), (tcp(4), 100)]);
    assert_eq!(sorted, vec![(tcp(4), 100), (tcp(5), 2), (tcp(5), 9), (udp(5), 1)]);
}

#[test]
fn restarting_runs_the_executable_with_the_rest_of_the_command_line() {
    let words = ["server", "--port", "80"];
    assert_eq!(restart_command(Some("/usr/bin/server"), &words), Some(("/usr/bin/server", &words[1..])));
    assert_eq!(restart_command(None, &words), Some(("server", &words[1..])));
    assert_eq!(restart_command(None, &["only"]), Some(("only", &[][..])));
    let empty: [&str; 0] = [];
    assert_eq!(restart_command(Some("/usr/bin/server"), &empty), None);
}

#[test]
fn ports_at_the_ends_of_the_range_are_kept_apart() {
    let mut map = PortMap::new();
    map.insert(tcp(65535), 1);
    map.insert(udp(65535), 2);
    map.insert(tcp(0), 3);
    map.insert(udp(0), 4);
    assert_eq!(map.get(tcp(65535)), Some(1));
    assert_eq!(map.get(udp(65535)), Some(2));
    assert_eq!(map.get(tcp(0)), Some(3));
    assert_eq!(map.get(udp(0)), Some(4));
    let mut pairs = map.pairs();
    pairs.sort();
    assert_eq!(pairs, vec![(tcp(0), 3), (udp(0), 4), (tcp(65535), 1), (udp(65535), 2)]);
}
