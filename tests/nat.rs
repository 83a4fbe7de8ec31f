use nat_router::nat_v4::{Ipv4Addr, NatEntry, NatTable, RandomTransportPacket};

fn v4(a: u8, b: u8, c: u8, d: u8) -> Ipv4Addr {
    Ipv4Addr(u32::from_be_bytes([a, b, c, d]))
}

fn packet(src: Ipv4Addr, sport: u16, dst: Ipv4Addr, dport: u16, ttl: u64) -> RandomTransportPacket {
    RandomTransportPacket {
        time_to_live: ttl,
        source_ip: src,
        destination_ip: dst,
        source_port: sport,
        destination_port: dport,
        data: "K xa bro, haal khabar?".to_string(),
    }
}

fn entry(port: u16, mangled: u16, at: u64, ttl: u64) -> NatEntry {
    NatEntry {
        source_ip: v4(10, 0, 0, 1),
        source_port: port,
        computer: 1,
        mangled_port: mangled,
        mapped_on_time: at,
        time_to_live: ttl,
    }
}

fn table(addr: Ipv4Addr, entries: Vec<NatEntry>) -> NatTable {
    NatTable { name: "Krischal's NAT".to_string(), translated_addr: addr, table: entries }
}

fn ports(t: &NatTable) -> Vec<u16> {
    t.table.iter().map(|e| e.mangled_port).collect()
}

#[test]
fn translation_works() {
    let my_packet = packet(v4(10, 100, 1, 1), 8090, v4(192, 168, 1, 1), 80, 20);
    let mut my_nattable = table(v4(103, 5, 150, 9), vec![]);
    let new_packet = my_nattable.translate_outgoing(my_packet.clone(), 12, 0).unwrap();
    println!("Packet before translation: \n {my_packet:#?}");
    println!("New translated packet is: \n {new_packet:#?}");
    assert_eq!(new_packet.source_ip, v4(103, 5, 150, 9));
    assert_eq!(new_packet.source_port, 0);
    assert_eq!(new_packet.destination_ip, v4(192, 168, 1, 1));
    assert_eq!(new_packet.destination_port, 80);
    assert_eq!(new_packet.data, my_packet.data);
    assert_eq!(my_nattable.table.len(), 1);

    let my_packet = packet(v4(10, 100, 1, 1), 8090, v4(192, 168, 1, 1), 120, 20);
    let my_nattable = table(
        v4(192, 168, 1, 1),
        vec![NatEntry {
            source_ip: v4(103, 5, 150, 9),
            source_port: 80,
            computer: 12,
            mangled_port: 120,
            mapped_on_time: 0,
            time_to_live: 30,
        }],
    );
    let (packet, computer) = my_nattable.translate_incoming(my_packet.clone()).unwrap();
    println!("New translated packet is: \n {packet:#?} ");
    println!("The packet will be translated to the computer {computer}");
    assert_eq!(packet.destination_ip, v4(103, 5, 150, 9));
    assert_eq!(packet.destination_port, 80);
    assert_eq!(packet.source_ip, v4(10, 100, 1, 1));
    assert_eq!(packet.source_port, 8090);
    assert_eq!(computer, 12);
}

#[test]
fn has_available_port_scans_entries() {
    let t = table(v4(1, 2, 3, 4), vec![entry(5, 0, 0, 10), entry(6, 7, 0, 10)]);
    assert!(!t.has_available_port(0));
    assert!(!t.has_available_port(7));
    assert!(t.has_available_port(1));
    assert!(t.has_available_port(65535));
}

#[test]
fn extract_available_port_takes_lowest() {
    let t = table(v4(1, 2, 3, 4), vec![entry(5, 1, 0, 10), entry(6, 0, 0, 10), entry(7, 3, 0, 10)]);
    assert_eq!(t.extract_available_port(), Some(2));
    let empty = table(v4(1, 2, 3, 4), vec![]);
    assert_eq!(empty.extract_available_port(), Some(0));
}

#[test]
fn next_port_after_zero_one_two_is_three() {
    let mut t = table(v4(1, 2, 3, 4), vec![entry(5, 0, 0, 10), entry(6, 1, 0, 10), entry(7, 2, 0, 10)]);
    assert_eq!(t.give_me_a_port(v4(10, 0, 0, 9), 4000, 3, 50, 1), Some((v4(1, 2, 3, 4), 3)));
    let last = t.table[3];
    assert_eq!(last.source_ip, v4(10, 0, 0, 9));
    assert_eq!(last.source_port, 4000);
    assert_eq!(last.computer, 3);
    assert_eq!(last.mangled_port, 3);
    assert_eq!(last.mapped_on_time, 1);
    assert_eq!(last.time_to_live, 50);
}

#[test]
fn exhaustion_then_reuse_of_expired_port() {
    let mut entries = Vec::new();
    for p in 0..=u16::MAX {
        let ttl = if p == 777 { 10 } else { 1_000_000 };
        entries.push(entry(p, p, 0, ttl));
    }
    let mut t = table(v4(1, 2, 3, 4), entries);
    assert_eq!(t.extract_available_port(), None);
    assert_eq!(t.give_me_a_port(v4(10, 0, 0, 2), 1, 2, 10, 5), None);
    assert_eq!(t.table.len(), 65536);
    assert_eq!(t.give_me_a_port(v4(10, 0, 0, 2), 1, 2, 10, 10), Some((v4(1, 2, 3, 4), 777)));
    assert_eq!(t.table.len(), 65536);
    assert_eq!(t.table[65535].mangled_port, 777);
    assert_eq!(t.table[65535].computer, 2);
}

#[test]
fn allocation_with_free_port_does_not_prune() {
    let mut t = table(v4(1, 2, 3, 4), vec![entry(5, 0, 0, 1)]);
    assert_eq!(t.give_me_a_port(v4(10, 0, 0, 2), 1, 2, 10, 100), Some((v4(1, 2, 3, 4), 1)));
    assert_eq!(ports(&t), vec![0, 1]);
}

#[test]
fn prune_removes_expired_only() {
    let mut t = table(
        v4(1, 2, 3, 4),
        vec![entry(1, 0, 0, 10), entry(2, 1, 5, 10), entry(3, 2, 0, 11), entry(4, 3, 20, 1)],
    );
    t.prune_unnecessary_ports(10);
    assert_eq!(ports(&t), vec![1, 2, 3]);
    t.prune_unnecessary_ports(10);
    assert_eq!(ports(&t), vec![1, 2, 3]);
    t.prune_unnecessary_ports(15);
    assert_eq!(ports(&t), vec![3]);
}

#[test]
fn prune_twice_at_same_instant() {
    let mut t = table(v4(1, 2, 3, 4), vec![entry(1, 4, 0, 3), entry(2, 9, 2, 8), entry(3, 1, 6, 0)]);
    t.prune_unnecessary_ports(6);
    let once = t.table.clone();
    t.prune_unnecessary_ports(6);
    assert_eq!(t.table, once);
    assert_eq!(ports(&t), vec![9]);
}

#[test]
fn found_on_nat_gives_first_match() {
    let mut a = entry(80, 3, 0, 10);
    a.computer = 7;
    let mut b = entry(80, 4, 0, 10);
    b.computer = 8;
    let t = table(v4(1, 2, 3, 4), vec![entry(81, 2, 0, 10), a, b]);
    assert_eq!(t.found_on_nat(v4(10, 0, 0, 1), 80).map(|e| e.computer), Some(7));
    assert!(t.found_on_nat(v4(10, 0, 0, 2), 80).is_none());
}

#[test]
fn outgoing_reuses_existing_mapping() {
    let mut t = table(v4(9, 9, 9, 9), vec![]);
    let p = packet(v4(10, 0, 0, 5), 5000, v4(8, 8, 8, 8), 53, 30);
    let first = t.translate_outgoing(p.clone(), 4, 0).unwrap();
    let other = t.translate_outgoing(packet(v4(10, 0, 0, 6), 5000, v4(8, 8, 8, 8), 53, 30), 5, 0).unwrap();
    let again = t.translate_outgoing(p, 4, 1).unwrap();
    assert_eq!(first.source_port, 0);
    assert_eq!(other.source_port, 1);
    assert_eq!(again.source_port, 0);
    assert_eq!(again.source_ip, v4(9, 9, 9, 9));
    assert_eq!(t.table.len(), 2);
}

#[test]
fn allocations_never_share_a_port() {
    let mut t = table(v4(9, 9, 9, 9), vec![entry(1, 0, 0, 5), entry(2, 2, 0, 100)]);
    for i in 0..10u16 {
        t.give_me_a_port(v4(10, 0, 1, 1), 100 + i, i, 100, 1).unwrap();
    }
    let mut seen = ports(&t);
    assert_eq!(seen.len(), 12);
    seen.sort();
    seen.dedup();
    assert_eq!(seen.len(), 12);
}

#[test]
fn outgoing_then_incoming_round_trip() {
    let mut t = table(v4(200, 1, 1, 1), vec![entry(1, 0, 0, 100), entry(2, 1, 0, 100)]);
    let p = packet(v4(10, 1, 2, 3), 6000, v4(93, 184, 216, 34), 443, 60);
    let out = t.translate_outgoing(p.clone(), 42, 0).unwrap();
    assert_eq!(out.source_port, 2);
    let reply = packet(v4(93, 184, 216, 34), 443, out.source_ip, out.source_port, 60);
    let (back, computer) = t.translate_incoming(reply).unwrap();
    assert_eq!(back.destination_ip, p.source_ip);
    assert_eq!(back.destination_port, p.source_port);
    assert_eq!(computer, 42);
}

#[test]
fn incoming_without_mapping_is_dropped() {
    let t = table(v4(200, 1, 1, 1), vec![entry(1, 0, 0, 100)]);
    let reply = packet(v4(93, 184, 216, 34), 443, v4(200, 1, 1, 1), 5, 60);
    assert!(t.translate_incoming(reply).is_none());
}

#[test]
fn outgoing_fails_when_every_port_is_live() {
    let mut entries = Vec::new();
    for p in 0..=u16::MAX {
        entries.push(entry(p, p, 0, 100));
    }
    let mut t = table(v4(1, 2, 3, 4), entries);
    let p = packet(v4(10, 9, 9, 9), 1, v4(8, 8, 8, 8), 53, 30);
    assert!(t.translate_outgoing(p, 1, 50).is_none());
    assert_eq!(t.table.len(), 65536);
}
