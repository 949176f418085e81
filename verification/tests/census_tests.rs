use rustmotifs::census::is_well_formed;
use rustmotifs::census::motif_frequencies;
use rustmotifs::census::IDENTITY_DIGITS;
use rustmotifs::ledger::Ledger;
use rustmotifs::motifs::enumerate_subgraphs;
use rustmotifs::network::network_from_paper;
use rustmotifs::network::Network;
use std::collections::BTreeSet;

fn pair() -> Network {
    let mut net = Network::new();
    let a = net.add_node("a".to_string());
    let b = net.add_node("b".to_string());
    net.add_edge(a, b, 1);
    net.add_edge(b, a, 3);
    net
}

fn set(members: &[usize]) -> BTreeSet<usize> {
    members.iter().cloned().collect()
}

#[test]
fn well_formed_networks() {
    assert!(is_well_formed(&Network::new()));
    assert!(is_well_formed(&pair()));
    assert!(is_well_formed(&network_from_paper()));
}

#[test]
fn parallel_edges_are_not_well_formed() {
    let mut net = pair();
    net.add_edge(0.into(), 1.into(), 2);
    assert!(!is_well_formed(&net));
}

#[test]
fn weights_beyond_the_digits_are_not_well_formed() {
    let mut zero = pair();
    zero.add_edge(0.into(), 0.into(), 0);
    assert!(!is_well_formed(&zero));
    let mut four = pair();
    four.add_edge(1.into(), 1.into(), 4);
    assert!(!is_well_formed(&four));
    let mut three = pair();
    three.add_edge(1.into(), 1.into(), 3);
    assert!(is_well_formed(&three));
}

#[test]
fn frequencies_of_a_network_in_reach() {
    let net = network_from_paper();
    assert_eq!(32, IDENTITY_DIGITS);
    for k in 0..6 {
        assert_eq!(Some(enumerate_subgraphs(k, &net)), motif_frequencies(k, &net));
    }
}

#[test]
fn no_frequencies_out_of_reach() {
    let net = network_from_paper();
    // Thirty-six digits do not fit.
    assert_eq!(None, motif_frequencies(6, &net));
    assert_eq!(None, motif_frequencies(33, &net));
    // Nor does a count of the sets of a network that is not well formed.
    let mut doubled = pair();
    doubled.add_edge(0.into(), 1.into(), 1);
    assert_eq!(None, motif_frequencies(2, &doubled));
}

#[test]
fn ledger_holds_each_set_once() {
    let mut ledger = Ledger::new();
    assert!(!ledger.contains(&set(&[])));
    assert!(ledger.insert(set(&[1, 2])));
    assert!(ledger.insert(set(&[2])));
    assert!(!ledger.insert(set(&[2, 1])));
    assert!(ledger.insert(set(&[])));
    assert!(ledger.contains(&set(&[1, 2])));
    assert!(ledger.contains(&set(&[2])));
    assert!(ledger.contains(&set(&[])));
    assert!(!ledger.contains(&set(&[1])));
    assert!(!ledger.contains(&set(&[1, 2, 3])));
}
