use rustmotifs::motifs::id_to_network;
use rustmotifs::motifs::motif_str;
use rustmotifs::network::Network;
use rustmotifs::render::arrowhead;
use rustmotifs::render::is_interesting;

#[test]
fn arrowheads_by_kind() {
    assert_eq!("onormal", arrowhead(1));
    assert_eq!("diamond", arrowhead(3));
    assert_eq!("circle", arrowhead(2));
    assert_eq!("circle", arrowhead(0));
    assert_eq!("circle", arrowhead(200));
}

#[test]
fn trees_are_not_interesting() {
    // A line on three nodes: the neighbours number 1 + 2 + 1 = 4 = 2 * (3 - 1).
    let mut line = Network::new();
    let a = line.add_node(String::new());
    let b = line.add_node(String::new());
    let c = line.add_node(String::new());
    line.add_edge(a, b, 1);
    line.add_edge(b, c, 1);
    assert!(!is_interesting(&line));
    // Edges both ways between two nodes count as one neighbour each.
    line.add_edge(b, a, 2);
    assert!(!is_interesting(&line));
}

#[test]
fn a_cycle_is_interesting() {
    let feed_forward = id_to_network(3, motif_str("011001000"));
    assert!(is_interesting(&feed_forward));
}

#[test]
fn a_single_node_is_interesting_only_with_a_loop() {
    let mut net = Network::new();
    let a = net.add_node(String::new());
    assert!(!is_interesting(&net));
    net.add_edge(a, a, 1);
    assert!(is_interesting(&net));
}
