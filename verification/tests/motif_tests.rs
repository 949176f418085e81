use rustmotifs::canon::canonicalize;
use rustmotifs::motifs::id_to_network;
use rustmotifs::motifs::motif_id;
use rustmotifs::motifs::motif_str;
use rustmotifs::motifs::MOTIF_BASE;
use rustmotifs::network::network_from_paper;
use rustmotifs::network::Network;
use rustmotifs::network::SubNetwork;

fn canonical_subnet(net: &Network, ns: &[usize]) -> Network {
    let list: Vec<usize> = ns.iter().map(|n| *n - 1).collect();
    canonicalize(net.subnet(&list))
}

fn edge_list(net: &Network) -> Vec<(usize, usize, u8)> {
    net.raw_edges()
        .iter()
        .map(|e| (e.source().index(), e.target().index(), e.weight))
        .collect()
}

#[test]
fn test_motif_id() {
    {
        let mut net = Network::new();
        assert_eq!(0, motif_id(&net));
        net.add_node(String::new());
        assert_eq!(0, motif_id(&net));
        net.add_node(String::new());
        assert_eq!(0, motif_id(&net));
        net.add_node(String::new());
        assert_eq!(0, motif_id(&net));
    }

    let net = network_from_paper();
    println!("{:?}", canonical_subnet(&net, &[1, 2, 3, 4, 5, 6]));
    assert_eq!(0, motif_id(&canonical_subnet(&net, &[1])));
    assert_eq!(motif_str("0100"), motif_id(&canonical_subnet(&net, &[1, 2])));
    assert_eq!(motif_str("001000000"), motif_id(&canonical_subnet(&net, &[1, 2, 3])));
    assert_eq!(motif_str("0001000000000000"), motif_id(&canonical_subnet(&net, &[1, 2, 3, 4])));
    assert_eq!(motif_str("0000100000000000000000000"),
               motif_id(&canonical_subnet(&net, &[1, 2, 3, 4, 5])));
    assert_eq!(motif_str("000010000001000000000000000000000000"),
               motif_id(&canonical_subnet(&net, &[1, 2, 3, 4, 5, 6])));
}

#[test]
fn test_motif_id_roundtrip() {
    for id in 0..128 {
        assert_eq!(motif_id(&id_to_network(5, id)), id);
    }
}

#[test]
fn motif_base_is_four() {
    assert_eq!(4, MOTIF_BASE);
}

#[test]
fn motif_str_reads_base_four() {
    assert_eq!(0, motif_str("0"));
    assert_eq!(16, motif_str("0100"));
    assert_eq!(27, motif_str("123"));
    assert_eq!(27, motif_str("+123"));
    assert_eq!(u64::MAX, motif_str("33333333333333333333333333333333"));
}

#[test]
fn motif_id_weighs_each_edge_by_its_place() {
    let mut net = Network::new();
    let a = net.add_node(String::new());
    let b = net.add_node(String::new());
    let c = net.add_node(String::new());
    // place 3 * 0 + 1 = 1, weight 2
    net.add_edge(a, b, 2);
    // place 3 * 2 + 0 = 6, weight 3
    net.add_edge(c, a, 3);
    // a loop: place 3 * 1 + 1 = 4, weight 1
    net.add_edge(b, b, 1);
    assert_eq!(2 * 4 + 3 * 4096 + 256, motif_id(&net));
}

#[test]
fn id_to_network_reads_digits_row_by_row() {
    let net = id_to_network(3, 2 * 4 + 3 * 4096 + 256);
    assert_eq!(3, net.node_count());
    assert_eq!(vec![(0, 1, 2), (1, 1, 1), (2, 0, 3)], edge_list(&net));
}

#[test]
fn id_to_network_needs_the_node_count() {
    // The same number is another graph on another number of nodes.
    assert_eq!(vec![(1, 0, 1)], edge_list(&id_to_network(2, 16)));
    assert_eq!(vec![(0, 2, 1)], edge_list(&id_to_network(3, 16)));
    // Digits beyond the last pair of nodes are dropped.
    assert_eq!(vec![(0, 0, 1)], edge_list(&id_to_network(1, 5)));
    assert_eq!(0, id_to_network(0, 5).node_count());
    assert_eq!(0, id_to_network(0, 5).edge_count());
}

#[test]
fn empty_graphs_have_identity_zero() {
    for n in 0..7 {
        let net = id_to_network(n, 0);
        assert_eq!(n, net.node_count());
        assert_eq!(0, net.edge_count());
        assert_eq!(0, motif_id(&net));
    }
}

#[test]
fn roundtrip_keeps_the_edges() {
    for n in 0..5usize {
        let places = (n * n) as u32;
        let bound: u64 = if places > 5 { 1024 } else { 4u64.pow(places) };
        for id in 0..bound {
            let net = id_to_network(n, id);
            assert_eq!(id, motif_id(&net));
            let again = id_to_network(n, motif_id(&net));
            assert_eq!(edge_list(&net), edge_list(&again));
        }
    }
}
