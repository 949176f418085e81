use petgraph::graph::NodeIndex;
use rustmotifs::loader::decimal;
use rustmotifs::loader::matrix_size;
use rustmotifs::loader::network_from_matrix;
use rustmotifs::loader::parse_adjacency;
use rustmotifs::loader::read_entries;
use rustmotifs::network::Network;

fn edge_list(net: &Network) -> Vec<(usize, usize, u8)> {
    net.raw_edges()
        .iter()
        .map(|e| (e.source().index(), e.target().index(), e.weight))
        .collect()
}

#[test]
fn words_become_entries() {
    assert_eq!(Some(vec![0, 1, 2, 3]), parse_adjacency("0 1\n2\t-1\n"));
    assert_eq!(Some(vec![]), parse_adjacency("  \n"));
    assert_eq!(Some(vec![1]), parse_adjacency("1"));
}

#[test]
fn other_words_are_refused() {
    assert_eq!(None, parse_adjacency("0 1 3"));
    assert_eq!(None, parse_adjacency("0 +1"));
    assert_eq!(None, parse_adjacency("0 1 x 1"));
    assert_eq!(None, parse_adjacency("01"));
    assert_eq!(None, read_entries(&vec!["1".to_string(), "".to_string()]));
    assert_eq!(Some(vec![3, 0]), read_entries(&vec!["-1".to_string(), "0".to_string()]));
}

#[test]
fn size_is_the_root_of_the_count() {
    assert_eq!(1, matrix_size(0));
    assert_eq!(1, matrix_size(1));
    assert_eq!(1, matrix_size(2));
    assert_eq!(2, matrix_size(3));
    assert_eq!(2, matrix_size(4));
    assert_eq!(2, matrix_size(7));
    assert_eq!(3, matrix_size(8));
    assert_eq!(3, matrix_size(9));
    assert_eq!(16, matrix_size(256));
    assert_eq!(65535, matrix_size(65535 * 65535));
    assert_eq!(65536, matrix_size(65536 * 65536 - 1));
    assert_eq!(1000, matrix_size(1000 * 1000));
    assert_eq!(999, matrix_size(1000 * 1000 - 2));
}

#[test]
fn numbers_in_decimal() {
    assert_eq!("0", decimal(0));
    assert_eq!("7", decimal(7));
    assert_eq!("10", decimal(10));
    assert_eq!("16", decimal(16));
    assert_eq!("4096", decimal(4096));
    assert_eq!(format!("{}", usize::MAX), decimal(usize::MAX));
}

#[test]
fn matrix_becomes_network() {
    // Row 0: an edge to 1; row 1: a loop, which is dropped, and an edge of
    // the third kind to 2; row 2: an edge of the second kind to 0.
    let entries = parse_adjacency("0 1 0\n0 1 -1\n2 0 0\n").unwrap();
    let n = matrix_size(entries.len());
    assert_eq!(3, n);
    let net = network_from_matrix(n, &entries);
    assert_eq!(3, net.node_count());
    assert_eq!("1", net[NodeIndex::new(0)]);
    assert_eq!("3", net[NodeIndex::new(2)]);
    assert_eq!(vec![(0, 1, 1), (1, 2, 3), (2, 0, 2)], edge_list(&net));
}

#[test]
fn empty_matrix_becomes_empty_network() {
    let net = network_from_matrix(0, &Vec::new());
    assert_eq!(0, net.node_count());
    assert_eq!(0, net.edge_count());
    let one = network_from_matrix(1, &vec![1]);
    assert_eq!(1, one.node_count());
    assert_eq!(0, one.edge_count());
}
