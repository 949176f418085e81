use rustmotifs::ensemble::compare_motifs;
use rustmotifs::ensemble::run;
use rustmotifs::ensemble::ReportRow;
use rustmotifs::motifs::enumerate_subgraphs;
use rustmotifs::motifs::motif_str;
use rustmotifs::motifs::MotifFreq;
use rustmotifs::network::network_from_paper;
use rustmotifs::network::Network;
use std::collections::BTreeMap;

fn table(entries: &[(u64, usize)]) -> MotifFreq {
    let mut out: MotifFreq = BTreeMap::new();
    for (id, count) in entries {
        out.insert(*id, *count);
    }
    out
}

fn as_tuples(rows: &[ReportRow]) -> Vec<(u64, usize, Vec<usize>)> {
    rows.iter().map(|r| (r.motif_id, r.original, r.ensemble.clone())).collect()
}

fn chain(n: usize) -> Network {
    let mut net = Network::new();
    let nodes: Vec<_> = (0..n).map(|i| net.add_node(format!("{}", i))).collect();
    for i in 1..n {
        net.add_edge(nodes[i - 1], nodes[i], 1);
    }
    net
}

#[test]
fn report_is_anchored_to_the_original() {
    let original = table(&[(40, 2), (7, 5), (12, 1)]);
    let ensemble = vec![table(&[(7, 1), (99, 4)]), table(&[]), table(&[(12, 3), (40, 6), (7, 2)])];
    let rows = compare_motifs(&original, &ensemble);
    assert_eq!(
        vec![(7, 5, vec![1, 0, 2]), (12, 1, vec![0, 0, 3]), (40, 2, vec![0, 0, 6])],
        as_tuples(&rows)
    );
}

#[test]
fn report_without_ensemble_lists_the_original() {
    let original = table(&[(3, 1), (1, 2)]);
    let rows = compare_motifs(&original, &Vec::new());
    assert_eq!(vec![(1, 2, vec![]), (3, 1, vec![])], as_tuples(&rows));
}

#[test]
fn report_on_an_empty_original_is_empty() {
    let rows = compare_motifs(&table(&[]), &vec![table(&[(1, 1)])]);
    assert!(rows.is_empty());
}

#[test]
fn run_counts_every_network_at_the_same_size() {
    let original = network_from_paper();
    let ensemble = vec![chain(4), network_from_paper(), Network::new()];
    let rows = run(&original, &ensemble, 3);

    let expected = enumerate_subgraphs(3, &original);
    assert_eq!(4, rows.len());
    let ids: Vec<u64> = rows.iter().map(|r| r.motif_id).collect();
    let keys: Vec<u64> = expected.keys().cloned().collect();
    assert_eq!(keys, ids);

    let line = enumerate_subgraphs(3, &chain(3));
    assert_eq!(1, line.len());
    let line_id = *line.keys().next().unwrap();
    for row in &rows {
        assert_eq!(expected[&row.motif_id], row.original);
        assert_eq!(3, row.ensemble.len());
        // The chain of four nodes holds two lines and nothing else.
        assert_eq!(if row.motif_id == line_id { 2 } else { 0 }, row.ensemble[0]);
        assert_eq!(row.original, row.ensemble[1]);
        assert_eq!(0, row.ensemble[2]);
    }
    assert!(ids.contains(&line_id));
    assert!(ids.contains(&motif_str("011001000")));
}
