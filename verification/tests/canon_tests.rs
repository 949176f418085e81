use petgraph::graph::NodeIndex;
use rustmotifs::canon::add_one_arc;
use rustmotifs::canon::bit;
use rustmotifs::canon::canonical_labelling;
use rustmotifs::canon::canonicalize;
use rustmotifs::canon::default_options_digraph;
use rustmotifs::canon::default_options_graph;
use rustmotifs::canon::dense_labelling;
use rustmotifs::canon::empty_dense;
use rustmotifs::canon::MAXN;
use rustmotifs::canon::WORDSIZE;
use rustmotifs::network::Network;
use rustmotifs::network::SubNetwork;

const POS: u8 = 1;
const NEG: u8 = 3;

fn edge_list(net: &Network) -> Vec<(usize, usize, u8)> {
    let mut edges: Vec<(usize, usize, u8)> = net
        .raw_edges()
        .iter()
        .map(|e| (e.source().index(), e.target().index(), e.weight))
        .collect();
    edges.sort();
    edges
}

#[test]
fn test_canon() {
    let mut net1 = Network::new();
    let a1 = net1.add_node("1".to_string());
    let b1 = net1.add_node("2".to_string());
    let c1 = net1.add_node("3".to_string());
    let d1 = net1.add_node("4".to_string());
    let e1 = net1.add_node("5".to_string());

    // The different order with change the internal numbering for net2.
    let mut net2 = Network::new();
    let a2 = net2.add_node("1".to_string());
    let d2 = net2.add_node("4".to_string());
    let c2 = net2.add_node("3".to_string());
    let b2 = net2.add_node("2".to_string());
    let e2 = net2.add_node("5".to_string());
    // We test using a feedforward involving a, b, c; and one with c, d, e. And e inhibiting a.
    net1.add_edge(a1, b1, POS);
    net2.add_edge(a2, b2, POS);
    net1.add_edge(b1, c1, POS);
    net2.add_edge(b2, c2, POS);
    net1.add_edge(a1, c1, POS);
    net2.add_edge(a2, c2, POS);

    net1.add_edge(c1, d1, POS);
    net2.add_edge(c2, d2, POS);
    net1.add_edge(d1, e1, POS);
    net2.add_edge(d2, e2, POS);
    net1.add_edge(c1, e1, NEG);
    net2.add_edge(c2, e2, NEG);

    net1.add_edge(e1, a1, NEG);
    net2.add_edge(e2, a2, NEG);

    let lab1 = canonical_labelling(&net1);
    let lab2 = canonical_labelling(&net2);

    for (l1, l2) in lab1.into_iter().zip(lab2.into_iter()) {
        assert_eq!(net1[NodeIndex::new(l1)], net2[NodeIndex::new(l2)]);
    }
}

#[test]
fn limits_are_those_of_one_word_per_row() {
    assert_eq!(32, MAXN);
    assert_eq!(64, WORDSIZE);
}

#[test]
fn options_for_graphs_and_digraphs() {
    let plain = default_options_graph();
    assert!(!plain.getcanon);
    assert!(!plain.digraph);
    let directed = default_options_digraph();
    assert!(!directed.getcanon);
    assert!(directed.digraph);
}

#[test]
fn bit_counts_columns_from_the_top() {
    assert_eq!(0x8000_0000_0000_0000, bit(0));
    assert_eq!(0x4000_0000_0000_0000, bit(1));
    assert_eq!(1, bit(63));
}

#[test]
fn add_one_arc_sets_one_bit_of_one_row() {
    let mut g = empty_dense();
    assert_eq!(vec![0u64; 32], g);
    add_one_arc(&mut g, 2, 0);
    add_one_arc(&mut g, 2, 1);
    add_one_arc(&mut g, 2, 1);
    assert_eq!(0xC000_0000_0000_0000, g[2]);
    assert_eq!(0, g[0]);
    assert_eq!(0, g[1]);
}

#[test]
fn labelling_without_getcanon_keeps_the_order() {
    let mut g = empty_dense();
    add_one_arc(&mut g, 0, 1);
    let options = default_options_digraph();
    assert_eq!(vec![0, 1, 2], dense_labelling(&g, 3, &options));
}

#[test]
fn labelling_of_one_arc_puts_the_target_first_and_the_source_last() {
    let mut g = empty_dense();
    add_one_arc(&mut g, 0, 1);
    let mut options = default_options_digraph();
    options.getcanon = true;
    assert_eq!(vec![1, 2, 0], dense_labelling(&g, 3, &options));
}

#[test]
fn undirected_reading_joins_both_ways() {
    // A path 0 -> 1 <- 2 read without directions is the path 0 - 1 - 2,
    // and so is 0 <- 1 -> 2: both get the same form.
    let mut g = empty_dense();
    add_one_arc(&mut g, 0, 1);
    add_one_arc(&mut g, 2, 1);
    let mut h = empty_dense();
    add_one_arc(&mut h, 1, 0);
    add_one_arc(&mut h, 1, 2);
    let mut options = default_options_graph();
    options.getcanon = true;
    assert_eq!(dense_labelling(&g, 3, &options), dense_labelling(&h, 3, &options));
    let mut directed = default_options_digraph();
    directed.getcanon = true;
    assert_ne!(dense_labelling(&g, 3, &directed), dense_labelling(&h, 3, &directed));
}

#[test]
fn labelling_is_a_numbering() {
    let mut net = Network::new();
    let a = net.add_node("a".to_string());
    let b = net.add_node("b".to_string());
    let c = net.add_node("c".to_string());
    let d = net.add_node("d".to_string());
    net.add_edge(a, b, 1);
    net.add_edge(c, b, 1);
    net.add_edge(d, a, 2);
    let mut lab = canonical_labelling(&net);
    lab.sort();
    assert_eq!(vec![0, 1, 2, 3], lab);
}

#[test]
fn canonical_form_does_not_depend_on_the_numbering() {
    // A feed-forward loop with a tail, under all six orders of three of
    // its nodes.
    let mut net = Network::new();
    let a = net.add_node("a".to_string());
    let b = net.add_node("b".to_string());
    let c = net.add_node("c".to_string());
    let d = net.add_node("d".to_string());
    net.add_edge(a, b, 1);
    net.add_edge(b, c, 1);
    net.add_edge(a, c, 1);
    net.add_edge(c, d, 1);
    let expected = edge_list(&canonicalize(net.subnet(&[0, 1, 2, 3])));
    let orders: [[usize; 4]; 6] = [
        [0, 1, 2, 3],
        [0, 2, 1, 3],
        [1, 0, 2, 3],
        [1, 2, 0, 3],
        [2, 0, 1, 3],
        [3, 2, 1, 0],
    ];
    for order in orders.iter() {
        let relabelled = net.subnet(order);
        assert_eq!(expected, edge_list(&canonicalize(relabelled)));
    }
}

#[test]
fn canonical_form_of_every_numbering_of_a_weighted_network() {
    // No renumbering but the identity leaves this network as it is, so
    // the weights go where the arcs go.
    let mut net = Network::new();
    let nodes: Vec<_> = (0..4).map(|i| net.add_node(format!("{}", i))).collect();
    net.add_edge(nodes[0], nodes[1], 1);
    net.add_edge(nodes[1], nodes[2], 2);
    net.add_edge(nodes[2], nodes[0], 3);
    net.add_edge(nodes[2], nodes[3], 1);
    let expected = edge_list(&canonicalize(net.subnet(&[0, 1, 2, 3])));
    assert_eq!(4, expected.len());
    let mut tried = 0;
    for a in 0..4 {
        for b in 0..4 {
            for c in 0..4 {
                for d in 0..4 {
                    let order = [a, b, c, d];
                    let mut sorted = order.to_vec();
                    sorted.sort();
                    if sorted != vec![0, 1, 2, 3] {
                        continue;
                    }
                    tried += 1;
                    assert_eq!(expected, edge_list(&canonicalize(net.subnet(&order))));
                }
            }
        }
    }
    assert_eq!(24, tried);
}

#[test]
fn weights_of_a_symmetric_pair_follow_the_numbering() {
    // Two nodes joined both ways look alike without the weights, so
    // either numbering may be the canonical one; the weights then land
    // where the numbering puts them.
    let mut net = Network::new();
    let a = net.add_node("a".to_string());
    let b = net.add_node("b".to_string());
    net.add_edge(a, b, 1);
    net.add_edge(b, a, 2);
    let one = edge_list(&canonicalize(net.subnet(&[0, 1])));
    let other = edge_list(&canonicalize(net.subnet(&[1, 0])));
    assert_eq!(vec![(0, 1, 1), (1, 0, 2)], one);
    assert_eq!(vec![(0, 1, 2), (1, 0, 1)], other);
}

#[test]
fn canonicalize_keeps_labels_and_weights() {
    let mut net = Network::new();
    let a = net.add_node("source".to_string());
    let b = net.add_node("sink".to_string());
    net.add_edge(a, b, 3);
    let canon = canonicalize(net);
    assert_eq!(2, canon.node_count());
    assert_eq!("sink", canon[NodeIndex::new(0)]);
    assert_eq!("source", canon[NodeIndex::new(1)]);
    assert_eq!(vec![(1, 0, 3)], edge_list(&canon));
}
