use petgraph::graph::NodeIndex;
use rustmotifs::network::network_from_paper;
use rustmotifs::network::Network;
use rustmotifs::network::SubNetwork;

fn edge_list(net: &Network) -> Vec<(usize, usize, u8)> {
    net.raw_edges()
        .iter()
        .map(|e| (e.source().index(), e.target().index(), e.weight))
        .collect()
}

#[test]
fn test_network() {
    let mut net = Network::new();
    let a = net.add_node("a".to_string());
    let b = net.add_node("b".to_string());
    let c = net.add_node("c".to_string());
    let d = net.add_node("d".to_string());
    let e = net.add_node("e".to_string());

    for u in &[a, b, c, d, e] {
        net.add_edge(*u, *u, 1);
        for v in &[a, b, c, d, e] {
            if u.index() < v.index() {
                net.add_edge(*u, *v, 1);
                net.add_edge(*v, *u, 2);
            }
        }
    }
    let sub = net.subnet(&[]);
    assert_eq!(0, sub.node_count());
    assert_eq!(0, sub.edge_count());

    let sub = net.subnet(&[b.index()]);
    assert_eq!(1, sub.node_count());
    assert_eq!(1, sub.edge_count());

    let sub = net.subnet(&[a.index(), c.index(), e.index()]);
    assert_eq!(3, sub.node_count());
    assert_eq!(9, sub.edge_count());

    let sub = net.subnet(&[a.index(), b.index(), c.index(), e.index()]);
    assert_eq!(4, sub.node_count());
    assert_eq!(16, sub.edge_count());

    let sub = net.subnet(&[e.index(), d.index(), c.index(), b.index(), a.index()]);
    assert_eq!(5, sub.node_count());
    assert_eq!(25, sub.edge_count());
}

#[test]
fn subnet_renumbers_in_list_order() {
    let mut net = Network::new();
    let a = net.add_node("a".to_string());
    let b = net.add_node("b".to_string());
    let c = net.add_node("c".to_string());
    net.add_edge(a, b, 1);
    net.add_edge(b, c, 2);
    net.add_edge(c, a, 3);

    let sub = net.subnet(&[2, 0]);
    assert_eq!(2, sub.node_count());
    assert_eq!("c", sub[NodeIndex::new(0)]);
    assert_eq!("a", sub[NodeIndex::new(1)]);
    assert_eq!(vec![(0, 1, 3)], edge_list(&sub));
}

#[test]
fn subnet_drops_edges_that_leave_the_list() {
    let mut net = Network::new();
    let a = net.add_node("a".to_string());
    let b = net.add_node("b".to_string());
    let c = net.add_node("c".to_string());
    net.add_edge(a, b, 1);
    net.add_edge(b, c, 1);
    net.add_edge(c, b, 2);

    let sub = net.subnet(&[0, 1]);
    assert_eq!(vec![(0, 1, 1)], edge_list(&sub));
    // The parent is left as it was.
    assert_eq!(3, net.node_count());
    assert_eq!(3, net.edge_count());
}

#[test]
fn subnet_with_a_repeated_node_counts_its_last_place() {
    let mut net = Network::new();
    let a = net.add_node("a".to_string());
    let b = net.add_node("b".to_string());
    net.add_edge(a, b, 1);

    let sub = net.subnet(&[0, 1, 0]);
    assert_eq!(3, sub.node_count());
    assert_eq!(vec![(2, 1, 1)], edge_list(&sub));
}

#[test]
fn paper_network_has_sixteen_nodes() {
    let net = network_from_paper();
    assert_eq!(16, net.node_count());
    assert_eq!(19, net.edge_count());
    assert_eq!("1", net[NodeIndex::new(0)]);
    assert_eq!("16", net[NodeIndex::new(15)]);
    let edges = edge_list(&net);
    assert_eq!((0, 15, 1), edges[0]);
    assert_eq!((15, 14, 1), edges[18]);
}
