use conflux_utils::genesis::{
    elect_from_tickets, elect_genesis_committee, initial_nodes, GenesisNode, GENESIS_VOTING_POWER,
};
use conflux_utils::keyfile::{key_line, parse_key_file, parse_key_line, KeyEntry};

fn three_nodes() -> Vec<GenesisNode> {
    vec![
        GenesisNode { addr: [1u8; 32], voting_power: 3 },
        GenesisNode { addr: [2u8; 32], voting_power: 2 },
        GenesisNode { addr: [3u8; 32], voting_power: 1 },
    ]
}

#[test]
fn committee_takes_highest_tickets() {
    // Sorted SHA3-256 tickets of the three nodes with seed "seed", highest
    // last: ..., node 1, node 0, node 2 (from node 2's first unit), node 0.
    let nodes = three_nodes();
    assert_eq!(elect_genesis_committee(&nodes, b"seed", 2), vec![(0, 2)]);
    assert_eq!(elect_genesis_committee(&nodes, b"seed", 3), vec![(0, 2), (2, 1)]);
    assert_eq!(elect_genesis_committee(&nodes, b"seed", 4), vec![(0, 2), (1, 1), (2, 1)]);
}

#[test]
fn committee_size_zero_still_elects_one_seat() {
    let nodes = three_nodes();
    assert_eq!(elect_genesis_committee(&nodes, b"seed", 0), vec![(0, 1)]);
    assert_eq!(elect_genesis_committee(&nodes, b"seed", 1), vec![(0, 1)]);
}

#[test]
fn committee_larger_than_power_takes_everyone() {
    let nodes = three_nodes();
    let all = vec![(0, 3), (1, 2), (2, 1)];
    assert_eq!(elect_genesis_committee(&nodes, b"seed", 6), all);
    assert_eq!(elect_genesis_committee(&nodes, b"seed", 100), all);
}

#[test]
fn committee_of_nobody() {
    assert_eq!(elect_genesis_committee(&[], b"seed", 5), vec![]);
    let idle = vec![GenesisNode { addr: [9u8; 32], voting_power: 0 }];
    assert_eq!(elect_genesis_committee(&idle, b"seed", 5), vec![]);
}

#[test]
fn committee_names_last_node_of_an_address() {
    let nodes = vec![
        GenesisNode { addr: [5u8; 32], voting_power: 1 },
        GenesisNode { addr: [4u8; 32], voting_power: 1 },
        GenesisNode { addr: [5u8; 32], voting_power: 1 },
    ];
    let r = elect_genesis_committee(&nodes, b"", 10);
    // Both units of address 5 count for the last node that has it; the
    // entries come in increasing order of address.
    assert_eq!(r, vec![(1, 1), (2, 2)]);
}

#[test]
fn committee_counts_sum_to_seats() {
    let nodes = three_nodes();
    for k in 0..8usize {
        let r = elect_genesis_committee(&nodes, b"another seed", k);
        let total: u64 = r.iter().map(|e| e.1).sum();
        let expect = if k == 0 { 1 } else if k < 6 { k as u64 } else { 6 };
        assert_eq!(total, expect);
        for w in r.windows(2) {
            assert!(nodes[w[0].0].addr < nodes[w[1].0].addr);
        }
    }
}

#[test]
fn key_line_format() {
    assert_eq!(key_line("abc", "def", 2000), "abc,def,2000\n");
    assert_eq!(key_line("", "", 0), ",,0\n");
}

#[test]
fn key_line_parse() {
    let e = parse_key_line("abc,def,2000").unwrap();
    assert_eq!(
        e,
        KeyEntry { public_key: "abc".to_string(), vrf_public_key: "def".to_string(), voting_power: 2000 }
    );
    assert_eq!(parse_key_line("a,b,+7").unwrap().voting_power, 7);
    assert_eq!(parse_key_line("a,b,7,extra").unwrap().voting_power, 7);
    assert_eq!(parse_key_line("a,b,18446744073709551615").unwrap().voting_power, u64::MAX);
    assert!(parse_key_line("a,b").is_none());
    assert!(parse_key_line("a,b,").is_none());
    assert!(parse_key_line("a,b,x").is_none());
    assert!(parse_key_line("a,b,-1").is_none());
    assert!(parse_key_line("a,b,18446744073709551616").is_none());
    assert!(parse_key_line("").is_none());
}

#[test]
fn key_file_parse_lines() {
    let v = parse_key_file("a,b,1\r\nc,d,2\n").unwrap();
    assert_eq!(v.len(), 2);
    assert_eq!(v[0].public_key, "a");
    assert_eq!(v[0].voting_power, 1);
    assert_eq!(v[1].vrf_public_key, "d");
    assert_eq!(v[1].voting_power, 2);
    assert_eq!(parse_key_file("").unwrap().len(), 0);
    assert_eq!(parse_key_file("a,b,3").unwrap().len(), 1);
    assert!(parse_key_file("a,b,1\n\nc,d,2\n").is_none());
    assert!(parse_key_file("a,b,1\nc,d,2\r").is_none());
}

#[test]
fn key_file_roundtrip() {
    let entries = [("k1", "v1", 2000u64), ("k2", "v2", 0), ("k3", "v3", u64::MAX)];
    let mut file = String::new();
    for (pk, vrf, p) in entries.iter() {
        file.push_str(&key_line(pk, vrf, *p));
    }
    let v = parse_key_file(&file).unwrap();
    assert_eq!(v.len(), 3);
    for (e, (pk, vrf, p)) in v.iter().zip(entries.iter()) {
        assert_eq!(e.public_key, *pk);
        assert_eq!(e.vrf_public_key, *vrf);
        assert_eq!(e.voting_power, *p);
    }
}

#[test]
fn committee_seats_add_up_to_committee_size() {
    let nodes = vec![
        GenesisNode { addr: [7u8; 32], voting_power: 4 },
        GenesisNode { addr: [8u8; 32], voting_power: 5 },
    ];
    for (k, expect) in [(0usize, 1u64), (1, 1), (5, 5), (9, 9), (20, 9)] {
        let r = elect_genesis_committee(&nodes, b"x", k);
        assert_eq!(r.iter().map(|e| e.1).sum::<u64>(), expect);
    }
}

#[test]
fn tickets_elect_highest_hash_then_address() {
    let nodes = three_nodes();
    let (a, b, c) = ([1u8; 32], [2u8; 32], [3u8; 32]);
    let tickets = vec![([9u8; 32], a), ([5u8; 32], b), ([7u8; 32], c), ([8u8; 32], b)];
    assert_eq!(elect_from_tickets(&nodes, tickets.clone(), 1), vec![(0, 1)]);
    assert_eq!(elect_from_tickets(&nodes, tickets.clone(), 2), vec![(0, 1), (1, 1)]);
    assert_eq!(elect_from_tickets(&nodes, tickets.clone(), 3), vec![(0, 1), (1, 1), (2, 1)]);
    assert_eq!(elect_from_tickets(&nodes, tickets, 4), vec![(0, 1), (1, 2), (2, 1)]);
    let tied = vec![([5u8; 32], a), ([5u8; 32], b)];
    assert_eq!(elect_from_tickets(&nodes, tied, 1), vec![(1, 1)]);
    assert_eq!(elect_from_tickets(&nodes, vec![], 3), vec![]);
}

#[test]
fn initial_nodes_are_the_first_ones() {
    let nodes = three_nodes();
    assert_eq!(initial_nodes(&nodes, 2).unwrap(), nodes[..2].to_vec());
    assert_eq!(initial_nodes(&nodes, 0).unwrap(), vec![]);
    assert_eq!(initial_nodes(&nodes, 3).unwrap(), nodes);
    assert!(initial_nodes(&nodes, 4).is_none());
    assert_eq!(key_line("p", "v", GENESIS_VOTING_POWER), "p,v,2000\n");
}

#[test]
fn committee_does_not_depend_on_node_order() {
    let nodes = vec![
        GenesisNode { addr: [1u8; 32], voting_power: 3 },
        GenesisNode { addr: [2u8; 32], voting_power: 2 },
        GenesisNode { addr: [3u8; 32], voting_power: 4 },
    ];
    let mut reversed = nodes.clone();
    reversed.reverse();
    for k in 0..10usize {
        let a: Vec<([u8; 32], u64)> = elect_genesis_committee(&nodes, b"seed", k)
            .iter()
            .map(|(i, p)| (nodes[*i].addr, *p))
            .collect();
        let b: Vec<([u8; 32], u64)> = elect_genesis_committee(&reversed, b"seed", k)
            .iter()
            .map(|(i, p)| (reversed[*i].addr, *p))
            .collect();
        assert_eq!(a, b);
    }
}
