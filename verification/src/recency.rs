//! The order in which clusters were used last, and what a line changes in it.
use crate::cache::{holds_key, keys, lemma_place, lemma_promoted, lemma_value_at, promoted};
use crate::model::{lemma_touched, touched, ClassifierView};
use crate::tree::Path;
use vstd::prelude::*;

verus! {

/// Whether a list holds an identifier among its first `k`.
spec fn is_among(ids: Seq<usize>, k: int, id: usize) -> bool {
    exists|i: int| 0 <= i < k && #[trigger] ids[i] == id
}

/// Whether entries are in the order that the use of the first `k` of a list has put them in.
spec fn is_used_order<V>(
    before: Seq<(usize, V)>,
    after: Seq<(usize, V)>,
    ids: Seq<usize>,
    k: int,
) -> bool {
    &&& forall|s: int, t: int|
        #![trigger after[s], after[t]]
        0 <= s < t < after.len() ==> (is_among(ids, k, after[t].0) ==> is_among(
            ids,
            k,
            after[s].0,
        ))
    &&& forall|s: int, t: int|
        #![trigger after[s], after[t]]
        0 <= s < t < after.len() && !is_among(ids, k, after[s].0) && !is_among(ids, k, after[t].0)
            ==> keys(before).index_of(after[s].0) < keys(before).index_of(after[t].0)
    &&& forall|s: int, t: int, i: int, j: int|
        #![trigger after[s], after[t], ids[i], ids[j]]
        0 <= s < t < after.len() && 0 <= i < k && 0 <= j < k && after[s].0 == ids[i] && after[t].0
            == ids[j] ==> i > j
}

/// The use of a list of different identifiers puts them in order.
proof fn lemma_used_order<V>(before: Seq<(usize, V)>, ids: Seq<usize>, k: nat)
    requires
        keys(before).no_duplicates(),
        ids.no_duplicates(),
        k <= ids.len(),
    ensures
        is_used_order(before, touched(before, ids, k), ids, k as int),
    decreases k,
{
    let after = touched(before, ids, k);
    if k == 0 {
        assert forall|s: int, t: int|
            #![trigger after[s], after[t]]
            0 <= s < t < after.len() implies keys(before).index_of(after[s].0) < keys(
            before,
        ).index_of(after[t].0) by {
            lemma_value_at(before, s);
            lemma_value_at(before, t);
        }
    } else {
        let last = ids[k - 1];
        let middle = touched(before, ids, (k - 1) as nat);
        lemma_used_order(before, ids, (k - 1) as nat);
        lemma_touched(before, ids, (k - 1) as nat);
        assert forall|id: usize| #[trigger] is_among(ids, k as int, id) <==> is_among(
            ids,
            k - 1,
            id,
        ) || id == last by {
            if is_among(ids, k - 1, id) {
                let i = choose|i: int| 0 <= i < k - 1 && #[trigger] ids[i] == id;
                assert(ids[i] == id);
            }
            assert(ids[k - 1] == last);
        }
        if holds_key(middle, last) {
            let n = lemma_place(middle, last);
            lemma_promoted(middle, last);
            assert forall|s: int| 0 < s < after.len() implies #[trigger] after[s].0 != last by {
                lemma_value_at(after, s);
                lemma_value_at(after, 0);
            }
            assert forall|s: int, t: int|
                #![trigger after[s], after[t]]
                0 <= s < t < after.len() implies (is_among(ids, k as int, after[t].0) ==> is_among(
                ids,
                k as int,
                after[s].0,
            )) && (!is_among(ids, k as int, after[s].0) && !is_among(ids, k as int, after[t].0)
                ==> keys(before).index_of(after[s].0) < keys(before).index_of(after[t].0)) && (
            forall|i: int, j: int|
                #![trigger ids[i], ids[j]]
                0 <= i < k && 0 <= j < k && after[s].0 == ids[i] && after[t].0 == ids[j] ==> i
                    > j) by {
                let y = if t <= n {
                    t - 1
                } else {
                    t
                };
                assert(after[t] == middle[y]);
                if s == 0 {
                    assert(after[s].0 == last);
                } else {
                    let x = if s <= n {
                        s - 1
                    } else {
                        s
                    };
                    assert(after[s] == middle[x]);
                    assert(x < y);
                }
            }
        } else {
            assert(after == middle);
            assert forall|s: int| 0 <= s < after.len() implies #[trigger] after[s].0 != last by {
                lemma_value_at(middle, s);
            }
        }
    }
}

/// A search uses all the clusters at the node of the line that are remembered, in the order of the
/// node. Afterwards these come before all others, the last of them first, and the others are in
/// the order that they were in. No cluster is changed or forgotten.
pub proof fn law_search_uses_all_at_the_node(
    v: ClassifierView,
    line: Seq<Seq<char>>,
    node: Path,
    s: int,
    t: int,
)
    requires
        v.wf(),
        v.search_path(line) == Some(node),
        v.tree[node].no_duplicates(),
        0 <= s < t < v.after_search(line).clusters.len(),
    ensures
        ({
            let after = v.after_search(line).clusters;
            let ids = v.tree[node];
            &&& ids.contains(after[t].0) ==> ids.contains(after[s].0)
            &&& ids.contains(after[s].0) && ids.contains(after[t].0) ==> ids.index_of(after[s].0)
                > ids.index_of(after[t].0)
            &&& !ids.contains(after[s].0) && !ids.contains(after[t].0) ==> keys(
                v.clusters,
            ).index_of(after[s].0) < keys(v.clusters).index_of(after[t].0)
            &&& after.len() == v.clusters.len()
            &&& v.clusters.contains(after[s]) && v.clusters.contains(after[t])
        }),
{
    let ids = v.tree[node];
    let after = v.after_search(line).clusters;
    lemma_used_order(v.clusters, ids, ids.len());
    lemma_touched(v.clusters, ids, ids.len());
    assert forall|id: usize| #[trigger] is_among(ids, ids.len() as int, id) <==> ids.contains(
        id,
    ) by {
        if ids.contains(id) {
            let i = ids.index_of(id);
            assert(ids[i] == id);
        }
    }
    let a = after[s];
    let b = after[t];
    lemma_value_at(after, s);
    lemma_value_at(after, t);
    let x = lemma_place(v.clusters, a.0);
    let y = lemma_place(v.clusters, b.0);
    v.lemma_after_search(line);
    assert(v.after_search(line).cluster(a.0) == a.1 && v.after_search(line).cluster(b.0) == b.1);
    assert(holds_key(v.clusters, a.0) && holds_key(v.clusters, b.0));
    assert(v.after_search(line).cluster(a.0) == v.cluster(a.0));
    assert(v.after_search(line).cluster(b.0) == v.cluster(b.0));
    assert(v.clusters[x] == a && v.clusters[y] == b);
    if ids.contains(a.0) && ids.contains(b.0) {
        let i = ids.index_of(a.0);
        let j = ids.index_of(b.0);
        assert(ids[i] == a.0 && ids[j] == b.0);
    }
}

/// A line that has no node leaves the order of the clusters.
pub proof fn law_search_without_a_node_uses_nothing(v: ClassifierView, line: Seq<Seq<char>>)
    requires
        v.search_path(line) is None,
    ensures
        v.after_search(line) == v,
        v.search(line) is None,
{
    assert(v.candidates(line) =~= seq![]);
    assert(touched(v.clusters, seq![], 0) == v.clusters);
    assert(v.best(v.candidates(line), line, 0).id is None);
}

/// The cluster that takes a line comes first, and the others stay in the order that the search has
/// left, without the last of them where a new cluster found no room.
pub proof fn law_taking_cluster_comes_first(v: ClassifierView, line: Seq<Seq<char>>)
    requires
        v.wf(),
        v.accepts(line),
    ensures
        v.added(line).clusters.len() > 0,
        v.search(line) matches Some(id) ==> v.added(line).clusters[0].0 == id && v.added(
            line,
        ).clusters.drop_first() == v.after_search(line).clusters.remove(
            keys(v.after_search(line).clusters).index_of(id),
        ),
        v.search(line) is None ==> v.added(line).clusters[0].0 == v.clusters_count + 1 && v.added(
            line,
        ).clusters.drop_first() == if v.clusters.len() == v.capacity {
            v.after_search(line).clusters.drop_last()
        } else {
            v.after_search(line).clusters
        },
{
    let seen = v.after_search(line);
    let after = v.added(line);
    let ids = v.candidates(line);
    v.lemma_found(line);
    v.lemma_after_search(line);
    lemma_touched(v.clusters, ids, ids.len());
    match v.search(line) {
        Some(id) => {
            assert(holds_key(seen.clusters, id));
            let i = lemma_place(seen.clusters, id);
            assert(promoted(seen.clusters, id) =~= seq![seen.clusters[i]]
                + seen.clusters.remove(i));
            assert(after.clusters.drop_first() =~= seen.clusters.remove(i));
        },
        None => {
            assert(after.clusters.drop_first() =~= if seen.clusters.len() == v.capacity {
                seen.clusters.drop_last()
            } else {
                seen.clusters
            });
        },
    }
}

}
