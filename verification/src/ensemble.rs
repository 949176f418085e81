//! The comparison of a network with an ensemble of networks: the
//! frequencies of the motifs of the original beside their frequencies in
//! every network of the ensemble.

use crate::canon::MAXN;
use crate::motifs::enumerate_subgraphs;
use crate::motifs::MotifFreq;
use crate::identity::MotifId;
use crate::network::graph_edges;
use crate::network::graph_labels;
use crate::network::Network;
use crate::subgraphs::count_in;
use crate::subgraphs::frequency_table;
use crate::subgraphs::is_motif_set;
use crate::subgraphs::motif_count;
use crate::subgraphs::motif_of;
use crate::tables::identities;
use vstd::prelude::*;

verus! {

broadcast use vstd::std_specs::btree::group_btree_axioms;

/// One row of a report: a motif of the original network.
#[derive(Clone, Debug)]
pub struct ReportRow {
    /// The identity of the motif.
    pub motif_id: MotifId,
    /// How often the motif occurs in the original network.
    pub original: usize,
    /// How often it occurs in each network of the ensemble, in their order.
    pub ensemble: Vec<usize>,
}

/// The tables of an ensemble.
pub open spec fn table_views(tables: Seq<MotifFreq>) -> Seq<Map<u64, usize>> {
    Seq::new(tables.len(), |j: int| tables[j]@)
}

/// The row holds the counts of its motif: that of the original, which has
/// the motif, and those of the ensemble, 0 where a network has it not.
pub open spec fn is_row(
    row: ReportRow,
    original: Map<u64, usize>,
    ensemble: Seq<Map<u64, usize>>,
) -> bool {
    &&& original.contains_key(row.motif_id)
    &&& row.original == original[row.motif_id]
    &&& row.ensemble@.len() == ensemble.len()
    &&& forall|j: int|
        0 <= j < ensemble.len() ==> #[trigger] row.ensemble@[j] == count_in(
            ensemble[j],
            row.motif_id,
        )
}

/// The rows are the report on the tables: one row for every motif of the
/// original and for no other, in ascending order of the identities.
pub open spec fn is_report(
    rows: Seq<ReportRow>,
    original: Map<u64, usize>,
    ensemble: Seq<Map<u64, usize>>,
) -> bool {
    &&& forall|i: int, j: int|
        0 <= i < j < rows.len() ==> (#[trigger] rows[i]).motif_id < (#[trigger] rows[j]).motif_id
    &&& forall|id: u64|
        original.contains_key(id) <==> exists|r: int|
            0 <= r < rows.len() && (#[trigger] rows[r]).motif_id == id
    &&& forall|r: int| 0 <= r < rows.len() ==> is_row(#[trigger] rows[r], original, ensemble)
}

/// The count that a table holds for an identity, 0 without an entry.
fn count_of(table: &MotifFreq, id: MotifId) -> (count: usize)
    ensures
        count == count_in(table@, id),
{
    match table.get(&id) {
        Some(count) => *count,
        None => 0,
    }
}

/// The report on the frequency tables of a network and of an ensemble.
pub fn compare_motifs(motifs: &MotifFreq, ensemble_motifs: &Vec<MotifFreq>) -> (rows: Vec<
    ReportRow,
>)
    ensures
        is_report(rows@, motifs@, table_views(ensemble_motifs@)),
{
    let ghost original = motifs@;
    let ghost ensemble = table_views(ensemble_motifs@);
    let ids = identities(motifs);
    let mut rows: Vec<ReportRow> = Vec::new();
    let mut r: usize = 0;
    while r < ids.len()
        invariant
            r <= ids@.len(),
            original == motifs@,
            ensemble == table_views(ensemble_motifs@),
            ids@.to_set() == original.dom(),
            rows@.len() == r,
            forall|i: int| 0 <= i < r ==> (#[trigger] rows@[i]).motif_id == ids@[i],
            forall|i: int| 0 <= i < r ==> is_row(#[trigger] rows@[i], original, ensemble),
        decreases ids@.len() - r,
    {
        let id = ids[r];
        proof {
            assert(ids@.to_set().contains(id));
        }
        let mut counts: Vec<usize> = Vec::new();
        let mut j: usize = 0;
        while j < ensemble_motifs.len()
            invariant
                j <= ensemble_motifs@.len(),
                ensemble == table_views(ensemble_motifs@),
                counts@.len() == j,
                forall|h: int|
                    0 <= h < j ==> #[trigger] counts@[h] == count_in(ensemble[h], id),
            decreases ensemble_motifs@.len() - j,
        {
            counts.push(count_of(&ensemble_motifs[j], id));
            j += 1;
        }
        let row = ReportRow { motif_id: id, original: count_of(motifs, id), ensemble: counts };
        rows.push(row);
        r += 1;
    }
    proof {
        assert forall|id: u64|
            original.contains_key(id) <==> exists|r: int|
                0 <= r < rows@.len() && (#[trigger] rows@[r]).motif_id == id by {
            if original.contains_key(id) {
                assert(ids@.to_set().contains(id));
                let i = choose|i: int| 0 <= i < ids@.len() && ids@[i] == id;
                assert(rows@[i].motif_id == id);
            }
            if exists|r: int| 0 <= r < rows@.len() && (#[trigger] rows@[r]).motif_id == id {
                let i = choose|i: int| 0 <= i < rows@.len() && (#[trigger] rows@[i]).motif_id == id;
                assert(ids@.to_set().contains(ids@[i]));
            }
        }
    }
    rows
}

/// The identities and the counts of the subgraphs of `k` nodes of a
/// network fit the machine's numbers.
pub open spec fn is_countable(net: Network, k: nat) -> bool {
    &&& forall|t: Set<usize>|
        is_motif_set(graph_edges(net), graph_labels(net).len(), k, t) ==> #[trigger] motif_of(
            graph_edges(net),
            graph_labels(net).len(),
            t,
        ) <= u64::MAX
    &&& forall|id: u64| #[trigger]
        motif_count(graph_edges(net), graph_labels(net).len(), k, id) <= usize::MAX
}

/// The frequencies of the subgraphs of `k` nodes of a network.
pub open spec fn frequencies(net: Network, k: nat) -> Map<u64, usize> {
    frequency_table(graph_edges(net), graph_labels(net).len(), k)
}

/// The frequencies of the networks of an ensemble.
pub open spec fn ensemble_frequencies(networks: Seq<Network>, k: nat) -> Seq<Map<u64, usize>> {
    Seq::new(networks.len(), |j: int| frequencies(networks[j], k))
}

/// The report on a network and an ensemble: the subgraphs of `k` nodes of
/// each network are counted, and the counts of the motifs of the original
/// are set beside each other.
pub fn run(original: &Network, ensemble: &Vec<Network>, k: usize) -> (rows: Vec<ReportRow>)
    requires
        k <= MAXN,
        is_countable(*original, k as nat),
        forall|j: int| 0 <= j < ensemble@.len() ==> is_countable(#[trigger] ensemble@[j], k as nat),
    ensures
        is_report(
            rows@,
            frequencies(*original, k as nat),
            ensemble_frequencies(ensemble@, k as nat),
        ),
{
    let motifs = enumerate_subgraphs(k, original);
    let mut ensemble_motifs: Vec<MotifFreq> = Vec::new();
    let mut j: usize = 0;
    while j < ensemble.len()
        invariant
            j <= ensemble@.len(),
            k <= MAXN,
            forall|h: int|
                0 <= h < ensemble@.len() ==> is_countable(#[trigger] ensemble@[h], k as nat),
            ensemble_motifs@.len() == j,
            forall|h: int|
                0 <= h < j ==> (#[trigger] ensemble_motifs@[h])@ == frequencies(
                    ensemble@[h],
                    k as nat,
                ),
        decreases ensemble@.len() - j,
    {
        proof {
            assert(is_countable(ensemble@[j as int], k as nat));
        }
        let table = enumerate_subgraphs(k, &ensemble[j]);
        ensemble_motifs.push(table);
        j += 1;
    }
    proof {
        assert(table_views(ensemble_motifs@) =~= ensemble_frequencies(ensemble@, k as nat));
    }
    compare_motifs(&motifs, &ensemble_motifs)
}

} // verus!
