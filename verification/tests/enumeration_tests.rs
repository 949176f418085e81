use rustmotifs::canon::canonicalize;
use rustmotifs::motifs::all_motifs;
use rustmotifs::motifs::enumerate_subgraphs;
use rustmotifs::motifs::extend_subgraph;
use rustmotifs::motifs::motif_id;
use rustmotifs::motifs::motif_str;
use rustmotifs::motifs::MotifFreq;
use rustmotifs::network::network_from_paper;
use rustmotifs::network::Network;
use rustmotifs::network::SubNetwork;
use std::collections::BTreeMap;
use std::collections::BTreeSet;

fn canonical_subnet(net: &Network, ns: &[usize]) -> Network {
    let list: Vec<usize> = ns.iter().map(|n| *n - 1).collect();
    canonicalize(net.subnet(&list))
}

/// Whether the nodes picked by the bits of `mask` hang together.
fn hangs_together(net: &Network, mask: u32) -> bool {
    let n = net.node_count();
    let members: Vec<usize> = (0..n).filter(|i| mask & (1 << i) != 0).collect();
    if members.is_empty() {
        return false;
    }
    let mut seen: BTreeSet<usize> = BTreeSet::new();
    let mut stack = vec![members[0]];
    seen.insert(members[0]);
    while let Some(u) = stack.pop() {
        for e in net.raw_edges() {
            let (a, b) = (e.source().index(), e.target().index());
            for (x, y) in [(a, b), (b, a)] {
                if x == u && mask & (1 << y) != 0 && seen.insert(y) {
                    stack.push(y);
                }
            }
        }
    }
    seen.len() == members.len()
}

/// The number of connected sets of `k` nodes, by trying every set.
fn connected_sets(net: &Network, k: usize) -> usize {
    let n = net.node_count();
    let mut found = 0;
    for mask in 0u32..(1u32 << n) {
        if mask.count_ones() as usize == k && hangs_together(net, mask) {
            found += 1;
        }
    }
    found
}

fn total(table: &MotifFreq) -> usize {
    table.values().sum()
}

fn small_network() -> Network {
    let mut net = Network::new();
    let nodes: Vec<_> = (0..7).map(|i| net.add_node(format!("{}", i))).collect();
    net.add_edge(nodes[0], nodes[1], 1);
    net.add_edge(nodes[1], nodes[2], 1);
    net.add_edge(nodes[2], nodes[0], 1);
    net.add_edge(nodes[2], nodes[3], 2);
    net.add_edge(nodes[3], nodes[2], 1);
    net.add_edge(nodes[3], nodes[4], 1);
    net.add_edge(nodes[5], nodes[4], 3);
    net.add_edge(nodes[5], nodes[5], 1);
    net
}

#[test]
fn test_shared_ff() {
    let mut net = Network::new();
    let source = net.add_node("source".to_string());
    let sink = net.add_node("sink".to_string());
    net.add_edge(source, sink, 1);
    let n = 10;
    for i in 0..n {
        let node = net.add_node(format!("{}", i));
        net.add_edge(source, node, 1);
        net.add_edge(node, sink, 1);
    }
    assert_eq!(Some(&n), all_motifs(3, &net).get(&motif_str("011001000")));
}

#[test]
fn test_motifs_3() {
    let net = network_from_paper();
    let motifs = all_motifs(3, &net);

    let feedforward = motif_id(&canonical_subnet(&net, &[3, 12, 13]));
    assert_eq!(Some(&5), motifs.get(&feedforward));

    let line = motif_id(&canonical_subnet(&net, &[1, 2, 16]));
    assert_eq!(Some(&10), motifs.get(&line));

    let twofan = motif_id(&canonical_subnet(&net, &[5, 10, 13]));
    assert_eq!(Some(&3), motifs.get(&twofan));

    let vee = motif_id(&canonical_subnet(&net, &[3, 5, 13]));
    assert_eq!(Some(&3), motifs.get(&vee));

    assert_eq!(4, motifs.len());

    assert_eq!(enumerate_subgraphs(3, &net), motifs);
}

#[test]
fn test_motifs_4() {
    let net = network_from_paper();
    let motifs = all_motifs(4, &net);

    let line = motif_id(&canonical_subnet(&net, &[1, 2, 15, 16]));
    assert_eq!(Some(&5), motifs.get(&line));

    let feedforwardin = motif_id(&canonical_subnet(&net, &[1, 14, 15, 16]));
    assert_eq!(Some(&2), motifs.get(&feedforwardin));

    let feedforwardout = motif_id(&canonical_subnet(&net, &[1, 2, 8, 16]));
    assert_eq!(Some(&2), motifs.get(&feedforwardout));

    let feedforwardsidein = motif_id(&canonical_subnet(&net, &[3, 5, 12, 13]));
    assert_eq!(Some(&3), motifs.get(&feedforwardsidein));

    let feedforwardsideout = motif_id(&canonical_subnet(&net, &[5, 6, 9, 10]));
    assert_eq!(Some(&1), motifs.get(&feedforwardsideout));

    let branch = motif_id(&canonical_subnet(&net, &[5, 6, 9, 13]));
    assert_eq!(Some(&5), motifs.get(&branch));

    let n = motif_id(&canonical_subnet(&net, &[13, 10, 3, 5]));
    assert_eq!(Some(&4), motifs.get(&n));

    let feedforwardendin = motif_id(&canonical_subnet(&net, &[4, 5, 6, 10]));
    assert_eq!(Some(&1), motifs.get(&feedforwardendin));

    let branch_feedforward = motif_id(&canonical_subnet(&net, &[5, 6, 10, 13]));
    assert_eq!(Some(&1), motifs.get(&branch_feedforward));

    assert_eq!(9, motifs.len());
    assert_eq!(enumerate_subgraphs(4, &net), motifs);
}

#[test]
fn fan_network_has_ten_feed_forward_loops() {
    let mut net = Network::new();
    let source = net.add_node("source".to_string());
    let sink = net.add_node("sink".to_string());
    for i in 0..10 {
        let node = net.add_node(format!("{}", i));
        net.add_edge(source, node, 1);
        net.add_edge(node, sink, 1);
    }
    net.add_edge(source, sink, 1);
    let motifs = enumerate_subgraphs(3, &net);
    assert_eq!(Some(&10), motifs.get(&motif_str("011001000")));
    // Besides the loops there are the pairs of nodes in the middle, with
    // the source or with the sink: forty-five of each.
    let out_fan = motif_id(&canonical_subnet(&net, &[1, 3, 4]));
    let in_fan = motif_id(&canonical_subnet(&net, &[2, 3, 4]));
    assert_eq!(Some(&45), motifs.get(&out_fan));
    assert_eq!(Some(&45), motifs.get(&in_fan));
    assert_eq!(3, motifs.len());
    assert_eq!(motifs, all_motifs(3, &net));
}

#[test]
fn every_connected_set_is_counted_once() {
    let paper = network_from_paper();
    for k in 1..5 {
        assert_eq!(connected_sets(&paper, k), total(&enumerate_subgraphs(k, &paper)));
    }
    let small = small_network();
    for k in 0..6 {
        assert_eq!(connected_sets(&small, k), total(&enumerate_subgraphs(k, &small)));
    }
}

#[test]
fn both_searches_agree_from_two_nodes_on() {
    let small = small_network();
    for k in 2..6 {
        assert_eq!(enumerate_subgraphs(k, &small), all_motifs(k, &small));
    }
    let paper = network_from_paper();
    assert_eq!(enumerate_subgraphs(2, &paper), all_motifs(2, &paper));
}

#[test]
fn search_from_edges_finds_single_nodes_only_by_their_loops() {
    let small = small_network();
    // Seven nodes, each a connected set of one node; one has a loop.
    let by_roots = enumerate_subgraphs(1, &small);
    assert_eq!(7, total(&by_roots));
    assert_eq!(Some(&6), by_roots.get(&0));
    assert_eq!(Some(&1), by_roots.get(&1));
    let by_edges = all_motifs(1, &small);
    assert_eq!(1, total(&by_edges));
    assert_eq!(Some(&1), by_edges.get(&1));
}

#[test]
fn no_set_has_no_nodes() {
    let small = small_network();
    assert!(enumerate_subgraphs(0, &small).is_empty());
    assert!(all_motifs(0, &small).is_empty());
}

#[test]
fn enumeration_is_repeatable() {
    let net = network_from_paper();
    assert_eq!(enumerate_subgraphs(3, &net), enumerate_subgraphs(3, &net));
    assert_eq!(all_motifs(4, &net), all_motifs(4, &net));
}

#[test]
fn network_without_edges() {
    let mut net = Network::new();
    net.add_node("a".to_string());
    net.add_node("b".to_string());
    let singles = enumerate_subgraphs(1, &net);
    assert_eq!(Some(&2), singles.get(&0));
    assert_eq!(1, singles.len());
    assert!(enumerate_subgraphs(2, &net).is_empty());
    assert!(all_motifs(2, &net).is_empty());
    let empty = Network::new();
    assert!(enumerate_subgraphs(1, &empty).is_empty());
}

#[test]
fn extension_from_one_root_counts_the_sets_with_that_least_node() {
    // The path 0 - 1 - 2 - 3: with root 1 and three nodes only {1, 2, 3}.
    let mut net = Network::new();
    let nodes: Vec<_> = (0..4).map(|i| net.add_node(format!("{}", i))).collect();
    net.add_edge(nodes[0], nodes[1], 1);
    net.add_edge(nodes[1], nodes[2], 1);
    net.add_edge(nodes[2], nodes[3], 1);
    let mut out: MotifFreq = BTreeMap::new();
    let subgraph: BTreeSet<usize> = [1].into_iter().collect();
    let neighbours: BTreeSet<usize> = [0, 2].into_iter().collect();
    let extension: BTreeSet<usize> = [2].into_iter().collect();
    extend_subgraph(3, &net, 1, subgraph, neighbours, extension, &mut out);
    assert_eq!(1, total(&out));
    let line = motif_id(&canonical_subnet(&net, &[2, 3, 4]));
    assert_eq!(Some(&1), out.get(&line));

    // Counts are added to those that the table holds.
    let subgraph: BTreeSet<usize> = [0].into_iter().collect();
    let neighbours: BTreeSet<usize> = [1].into_iter().collect();
    let extension: BTreeSet<usize> = [1].into_iter().collect();
    extend_subgraph(3, &net, 0, subgraph, neighbours, extension, &mut out);
    assert_eq!(Some(&2), out.get(&line));
    assert_eq!(1, out.len());
}
