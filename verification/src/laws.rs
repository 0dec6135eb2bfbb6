//! What holds of every classifier, whatever lines it is given.
use crate::cache::{
    holds_key, keys, lemma_front_changed, lemma_inserted, lemma_place, lemma_promoted,
    lemma_value_at, promoted,
};
use crate::cluster::{
    absorbed, covers, is_clean, law_absorbed_line_is_covered, law_absorption_keeps_clean,
    law_absorption_keeps_matches, law_covered_line_changes_nothing, law_covered_lines_stay_covered,
    law_covering_template_counts, law_fresh_template_covers_line, law_fresh_template_is_clean,
    law_written_template_splits_back, similarity, template_id, template_text, token_texts,
    wildcards, ClusterView,
};
use crate::model::{
    child_limit, has_parents, insert_walk, is_on_way, lemma_filtered, lemma_insert_walk,
    lemma_touched, next_step, places, search_walk, touched, walk_length, with_way, ClassifierView,
    Settings,
};
use crate::similarity::{law_more_matches_reach, law_two_fifths, SimThreshold};
use crate::text::{has_numeric, words};
use crate::token::TokenView;
use crate::tree::{children, Path, TreeView};
use vstd::prelude::*;

verus! {

/// Whether one pair of counts goes before another: by more matches, then by more open places.
pub open spec fn outranks(a: (nat, nat), b: (nat, nat)) -> bool {
    a.0 > b.0 || (a.0 == b.0 && a.1 > b.1)
}

/// How many places of a cluster match a line, and how many are open.
pub open spec fn score(v: ClassifierView, id: usize, line: Seq<Seq<char>>) -> (nat, nat) {
    (similarity(v.cluster(id).template, line).0, wildcards(v.cluster(id).template, line.len()))
}

/// Whether, of the first `k` clusters of a list, the one at `i` is the first of the best ones: it
/// is remembered and has a match or an open place, no other goes before it, and it goes before all
/// those ahead of it in the list.
pub open spec fn is_first_best(
    v: ClassifierView,
    ids: Seq<usize>,
    line: Seq<Seq<char>>,
    i: int,
    k: int,
) -> bool {
    &&& 0 <= i < k
    &&& holds_key(v.clusters, ids[i])
    &&& outranks(score(v, ids[i], line), (0, 0))
    &&& forall|j: int|
        0 <= j < k && holds_key(v.clusters, #[trigger] ids[j]) ==> !outranks(
            score(v, ids[j], line),
            score(v, ids[i], line),
        )
    &&& forall|j: int|
        0 <= j < i && holds_key(v.clusters, #[trigger] ids[j]) ==> outranks(
            score(v, ids[i], line),
            score(v, ids[j], line),
        )
}

/// The best of a list is the first of the best ones.
proof fn lemma_best_is_first_best(
    v: ClassifierView,
    ids: Seq<usize>,
    line: Seq<Seq<char>>,
    k: nat,
) -> (i: int)
    requires
        k <= ids.len(),
    ensures
        match v.best(ids, line, k).id {
            Some(id) => is_first_best(v, ids, line, i, k as int) && ids[i] == id && score(
                v,
                id,
                line,
            ) == (v.best(ids, line, k).matched, v.best(ids, line, k).wildcards),
            None => {
                &&& v.best(ids, line, k).matched == 0 && v.best(ids, line, k).wildcards == 0
                &&& forall|j: int|
                    0 <= j < k && holds_key(v.clusters, #[trigger] ids[j]) ==> !outranks(
                        score(v, ids[j], line),
                        (0, 0),
                    )
            },
        },
    decreases k,
{
    if k == 0 {
        0
    } else {
        let i = lemma_best_is_first_best(v, ids, line, (k - 1) as nat);
        let before = v.best(ids, line, (k - 1) as nat);
        let now = score(v, ids[k - 1], line);
        if holds_key(v.clusters, ids[k - 1]) && outranks(now, (before.matched, before.wildcards)) {
            k - 1
        } else {
            i
        }
    }
}

/// The first of the best ones is the best of the list.
proof fn lemma_first_best_is_best(
    v: ClassifierView,
    ids: Seq<usize>,
    line: Seq<Seq<char>>,
    i: int,
)
    requires
        is_first_best(v, ids, line, i, ids.len() as int),
    ensures
        v.best(ids, line, ids.len()).id == Some(ids[i]),
        v.best(ids, line, ids.len()).matched == score(v, ids[i], line).0,
{
    let j = lemma_best_is_first_best(v, ids, line, ids.len());
    if v.best(ids, line, ids.len()).id is Some {
        if j < i {
            assert(outranks(score(v, ids[i], line), score(v, ids[j], line)));
        } else if i < j {
            assert(outranks(score(v, ids[j], line), score(v, ids[i], line)));
        }
    }
}

/// A line belongs to the first of the best clusters at its node, if that is similar enough; it
/// belongs to none where the best is not, or where no cluster there has a match or an open place.
pub proof fn law_search_finds_the_first_best(v: ClassifierView, line: Seq<Seq<char>>)
    ensures
        match v.search(line) {
            Some(id) => exists|i: int| #[trigger]
                is_first_best(v, v.candidates(line), line, i, v.candidates(line).len() as int)
                    && v.candidates(line)[i] == id && v.settings.sim_threshold.reached_by(
                    score(v, id, line).0,
                    places(line),
                ),
            None => forall|i: int|
                #![trigger v.candidates(line)[i]]
                0 <= i < v.candidates(line).len() && holds_key(v.clusters, v.candidates(line)[i])
                    ==> !outranks(score(v, v.candidates(line)[i], line), (0, 0))
                    || !v.settings.sim_threshold.reached_by(
                    score(v, v.candidates(line)[i], line).0,
                    places(line),
                ),
        },
{
    let ids = v.candidates(line);
    let best = v.best(ids, line, ids.len());
    let b = lemma_best_is_first_best(v, ids, line, ids.len());
    if v.search(line) is None {
        assert forall|i: int|
            #![trigger ids[i]]
            0 <= i < ids.len() && holds_key(v.clusters, ids[i]) && outranks(
                score(v, ids[i], line),
                (0, 0),
            ) implies !v.settings.sim_threshold.reached_by(
            score(v, ids[i], line).0,
            places(line),
        ) by {
            if v.settings.sim_threshold.reached_by(score(v, ids[i], line).0, places(line)) {
                law_more_matches_reach(
                    v.settings.sim_threshold,
                    score(v, ids[i], line).0,
                    best.matched,
                    places(line),
                );
            }
        }
    }
}

/// The cluster that takes a line covers it; it is the one that the line belongs to, with one line
/// more, or a new one of one line with the next number.
pub proof fn law_line_is_covered_by_its_cluster(v: ClassifierView, line: Seq<Seq<char>>)
    requires
        v.wf(),
        v.accepts(line),
    ensures
        v.added(line).clusters.len() > 0,
        covers(v.added(line).clusters[0].1.template, line),
        match v.search(line) {
            Some(id) => v.added(line).clusters[0] == (
                id,
                ClusterView {
                    template: absorbed(v.cluster(id).template, line),
                    size: (v.cluster(id).size + 1) as usize,
                    local_id: id,
                },
            ),
            None => v.added(line).clusters[0] == (
                (v.clusters_count + 1) as usize,
                ClusterView {
                    template: v.fresh(line),
                    size: 1,
                    local_id: (v.clusters_count + 1) as usize,
                },
            ),
        },
{
    v.lemma_found(line);
    v.lemma_after_search(line);
    let seen = v.after_search(line);
    match v.search(line) {
        Some(id) => {
            assert(holds_key(seen.clusters, id));
            lemma_promoted(seen.clusters, id);
            law_absorbed_line_is_covered(v.cluster(id).template, line);
        },
        None => {
            law_fresh_template_covers_line(line, v.settings.parameterize_numeric_tokens);
        },
    }
}

/// A line that belongs to a cluster leaves the clusters that are remembered, and changes only its
/// own.
proof fn lemma_found_line_stays_apart(v: ClassifierView, line: Seq<Seq<char>>)
    requires
        v.wf(),
        v.search(line) is Some,
    ensures
        forall|k: usize| #[trigger]
            holds_key(v.added(line).clusters, k) <==> holds_key(v.clusters, k),
        forall|k: usize| #[trigger]
            holds_key(v.clusters, k) && k != v.search(line)->0 ==> v.added(line).cluster(k)
                == v.cluster(k),
        v.added(line).cluster(v.search(line)->0).template == absorbed(
            v.cluster(v.search(line)->0).template,
            line,
        ),
{
    let id = v.search(line)->0;
    let after = v.added(line);
    v.lemma_found(line);
    v.lemma_after_search(line);
    let seen = v.after_search(line);
    assert(holds_key(seen.clusters, id));
    let front = promoted(seen.clusters, id);
    lemma_promoted(seen.clusters, id);
    lemma_front_changed(front, after.clusters[0].1);
    assert(after.clusters =~= front.update(0, (front[0].0, after.clusters[0].1)));
    assert forall|k: usize| #[trigger] holds_key(after.clusters, k) <==> holds_key(v.clusters, k) by {
        assert(holds_key(front, k) <==> holds_key(seen.clusters, k));
    }
    assert forall|k: usize| #[trigger] holds_key(v.clusters, k) && k != id implies after.cluster(k)
        == v.cluster(k) by {
        assert(holds_key(seen.clusters, k));
        assert(holds_key(front, k));
    }
}

/// A line changes no cluster but the one that takes it: every other one that is remembered
/// afterwards was remembered before, with the same template and size.
pub proof fn law_other_clusters_stay(v: ClassifierView, line: Seq<Seq<char>>, id: usize)
    requires
        v.wf(),
        v.accepts(line),
        holds_key(v.added(line).clusters, id),
        v.added(line).clusters[0].0 != id,
    ensures
        holds_key(v.clusters, id),
        v.added(line).cluster(id) == v.cluster(id),
{
    v.lemma_found(line);
    v.lemma_after_search(line);
    let seen = v.after_search(line);
    match v.search(line) {
        Some(found) => {
            law_line_is_covered_by_its_cluster(v, line);
            lemma_found_line_stays_apart(v, line);
        },
        None => {
            let new = (v.clusters_count + 1) as usize;
            assert(!holds_key(seen.clusters, new));
            lemma_inserted(
                seen.clusters,
                new,
                ClusterView { template: v.fresh(line), size: 1, local_id: new },
                v.capacity,
            );
        },
    }
}

/// A line that a cluster covers stays covered by it, whatever lines are added, as long as the
/// cluster is remembered.
pub proof fn law_covered_lines_stay_with_their_cluster(
    v: ClassifierView,
    line: Seq<Seq<char>>,
    id: usize,
    covered: Seq<Seq<char>>,
)
    requires
        v.wf(),
        v.accepts(line),
        holds_key(v.clusters, id),
        covers(v.cluster(id).template, covered),
        holds_key(v.added(line).clusters, id),
    ensures
        covers(v.added(line).cluster(id).template, covered),
{
    v.lemma_found(line);
    law_line_is_covered_by_its_cluster(v, line);
    if v.search(line) == Some(id) {
        lemma_found_line_stays_apart(v, line);
        law_covered_lines_stay_covered(v.cluster(id).template, covered, line);
    } else {
        law_other_clusters_stay(v, line, id);
    }
}

/// A classifier forgets at most one cluster with a line, and only when it has to make room for a
/// new one: the one used longest ago.
pub proof fn law_only_the_oldest_is_forgotten(v: ClassifierView, line: Seq<Seq<char>>, id: usize)
    requires
        v.wf(),
        v.accepts(line),
        holds_key(v.clusters, id),
        !holds_key(v.added(line).clusters, id),
    ensures
        v.search(line) is None,
        v.clusters.len() == v.capacity,
        v.after_search(line).clusters.last().0 == id,
{
    v.lemma_found(line);
    v.lemma_after_search(line);
    let seen = v.after_search(line);
    let after = v.added(line);
    assert(holds_key(seen.clusters, id));
    let i = lemma_place(seen.clusters, id);
    lemma_touched(v.clusters, v.candidates(line), v.candidates(line).len());
    match v.search(line) {
        Some(found) => {
            lemma_found_line_stays_apart(v, line);
        },
        None => {
            if seen.clusters.len() < v.capacity || i < seen.clusters.len() - 1 {
                assert(keys(after.clusters)[i + 1] == id);
            }
        },
    }
}

/// A line that belongs to a cluster belongs to it still once it has been added, and adding it
/// again changes no template.
pub proof fn law_found_line_is_found_again(v: ClassifierView, line: Seq<Seq<char>>)
    requires
        v.wf(),
        v.accepts(line),
        v.search(line) is Some,
    ensures
        v.added(line).search(line) == v.search(line),
        !v.added(line).changes_template(line),
{
    let id = v.search(line)->0;
    let after = v.added(line);
    let ids = v.candidates(line);
    v.lemma_found(line);
    v.lemma_after_search(line);
    law_line_is_covered_by_its_cluster(v, line);
    v.lemma_added(line);
    let seen = v.after_search(line);
    let i = lemma_best_is_first_best(v, ids, line, ids.len());
    assert(after.candidates(line) == ids);
    law_absorption_keeps_matches(v.cluster(id).template, line, line.len());
    lemma_found_line_stays_apart(v, line);
    assert(holds_key(after.clusters, id));
    assert(is_first_best(after, ids, line, i, ids.len() as int)) by {
        assert forall|j: int|
            0 <= j < ids.len() && holds_key(after.clusters, #[trigger] ids[j]) implies !outranks(
            score(after, ids[j], line),
            score(after, ids[i], line),
        ) by {
            assert(!outranks(score(v, ids[j], line), score(v, ids[i], line)));
        }
        assert forall|j: int|
            0 <= j < i && holds_key(after.clusters, #[trigger] ids[j]) implies outranks(
            score(after, ids[i], line),
            score(after, ids[j], line),
        ) by {
            assert(outranks(score(v, ids[i], line), score(v, ids[j], line)));
        }
    }
    lemma_first_best_is_best(after, ids, line, i);
    law_covered_line_changes_nothing(after.cluster(id).template, line);
}

/// Whether tokens with numbers, where these are parameters, have no nodes of their own.
pub open spec fn numbers_are_open(v: ClassifierView) -> bool {
    v.settings.parameterize_numeric_tokens ==> forall|p: Path, w: Seq<char>| #[trigger]
        v.tree.contains_key(p.child(TokenView::Value(w))) ==> !has_numeric(w)
}

/// Whether every word of a line would be a fixed token of its template.
pub open spec fn is_fixed(v: ClassifierView, line: Seq<Seq<char>>) -> bool {
    forall|i: int| 0 <= i < line.len() ==> #[trigger] v.fresh(line)[i] == TokenView::Value(line[i])
}

/// Where a new template is filed, a search for its line ends.
proof fn lemma_search_follows_insertion(
    v: ClassifierView,
    tree: TreeView,
    line: Seq<Seq<char>>,
    k: nat,
)
    requires
        numbers_are_open(v) || is_fixed(v, line),
        k <= line.len(),
        insert_walk(v.tree, v.fresh(line), v.settings, k) is Some,
        ({
            let node = insert_walk(v.tree, v.fresh(line), v.settings, k)->0;
            forall|p: Path| #[trigger]
                tree.contains_key(p) <==> v.tree.contains_key(p) || is_on_way(p, node)
        }),
    ensures
        search_walk(tree, line, k) == insert_walk(v.tree, v.fresh(line), v.settings, k),
{
    lemma_search_follows_insertion_to(v, tree, line, k, k);
}

/// The same for the first `j` of `k` steps.
proof fn lemma_search_follows_insertion_to(
    v: ClassifierView,
    tree: TreeView,
    line: Seq<Seq<char>>,
    j: nat,
    k: nat,
)
    requires
        numbers_are_open(v) || is_fixed(v, line),
        j <= k <= line.len(),
        insert_walk(v.tree, v.fresh(line), v.settings, k) is Some,
        ({
            let node = insert_walk(v.tree, v.fresh(line), v.settings, k)->0;
            forall|p: Path| #[trigger]
                tree.contains_key(p) <==> v.tree.contains_key(p) || is_on_way(p, node)
        }),
    ensures
        insert_walk(v.tree, v.fresh(line), v.settings, j) is Some,
        search_walk(tree, line, j) == insert_walk(v.tree, v.fresh(line), v.settings, j),
    decreases j,
{
    let template = v.fresh(line);
    let node = insert_walk(v.tree, template, v.settings, k)->0;
    lemma_walk_goes_on(v.tree, template, v.settings, j, k);
    let here = insert_walk(v.tree, template, v.settings, j)->0;
    assert(tree.contains_key(here));
    if j > 0 {
        lemma_search_follows_insertion_to(v, tree, line, (j - 1) as nat, k);
        let before = insert_walk(v.tree, template, v.settings, (j - 1) as nat)->0;
        let word = line[j - 1];
        let own = before.child(TokenView::Value(word));
        let step = next_step(v.tree, before, template[j - 1], v.settings)->0;
        assert(here == before.child(step));
        if step != TokenView::Value(word) {
            assert(step == TokenView::Wildcard);
            assert(!v.tree.contains_key(own));
            if is_on_way(own, node) {
                assert(own.steps =~= here.steps);
                assert(own.steps.last() == here.steps.last());
            }
        }
    }
}

/// A walk goes through the nodes that its shorter parts end at.
pub(crate) proof fn lemma_walk_goes_on(
    tree: TreeView,
    template: Seq<TokenView>,
    s: Settings,
    j: nat,
    k: nat,
)
    requires
        j <= k,
        insert_walk(tree, template, s, k) is Some,
    ensures
        insert_walk(tree, template, s, j) is Some,
        is_on_way(insert_walk(tree, template, s, j)->0, insert_walk(tree, template, s, k)->0),
    decreases k,
{
    lemma_insert_walk(tree, template, s, k);
    let node = insert_walk(tree, template, s, k)->0;
    if j == k {
        assert(node.steps =~= node.steps.take(node.steps.len() as int));
    } else {
        lemma_walk_goes_on(tree, template, s, j, (k - 1) as nat);
        lemma_insert_walk(tree, template, s, j);
        let before = insert_walk(tree, template, s, (k - 1) as nat)->0;
        assert(before.steps.take(j as int) =~= node.steps.take(j as int));
    }
}

/// A tree that has a node has all the nodes on the way to it.
proof fn lemma_way_is_known(tree: TreeView, node: Path)
    requires
        has_parents(tree),
        tree.contains_key(node),
    ensures
        forall|p: Path| #[trigger] is_on_way(p, node) ==> tree.contains_key(p),
    decreases node.steps.len(),
{
    if node.steps.len() > 0 {
        let parent = node.parent();
        assert(parent.child(node.steps.last()) =~= node);
        lemma_way_is_known(tree, parent);
    }
    assert forall|p: Path| #[trigger] is_on_way(p, node) implies tree.contains_key(p) by {
        if p.steps.len() == node.steps.len() {
            assert(p =~= node);
        } else {
            assert(p.steps =~= node.parent().steps.take(p.steps.len() as int));
            assert(is_on_way(p, node.parent()));
        }
    }
}

/// The nodes that a line leaves in the tree: those that were there, and those on the way to the one
/// that its new cluster is filed at.
pub(crate) proof fn lemma_nodes_after(v: ClassifierView, line: Seq<Seq<char>>)
    requires
        v.search(line) is None,
        v.accepts(line),
    ensures
        forall|p: Path| #[trigger]
            v.added(line).tree.contains_key(p) <==> v.tree.contains_key(p) || is_on_way(
                p,
                v.insert_path(v.fresh(line))->0,
            ),
{
    let node = v.insert_path(v.fresh(line))->0;
    assert(node.steps =~= node.steps.take(node.steps.len() as int));
}

/// A new line that its own template is similar enough to is found again, in the cluster that was
/// made for it, and adding it again changes no template. Tokens with numbers have to have no nodes
/// of their own, where these are parameters and the line holds any.
pub proof fn law_new_line_is_found_again(v: ClassifierView, line: Seq<Seq<char>>)
    requires
        v.wf(),
        v.accepts(line),
        v.search(line) is None,
        numbers_are_open(v) || is_fixed(v, line),
        v.settings.sim_threshold.reached_by(similarity(v.fresh(line), line).0, places(line)),
    ensures
        v.added(line).search(line) == Some((v.clusters_count + 1) as usize),
        !v.added(line).changes_template(line),
{
    let after = v.added(line);
    let seen = v.after_search(line);
    let template = v.fresh(line);
    let id = (v.clusters_count + 1) as usize;
    let steps = walk_length(line.len(), v.settings.max_node_depth as nat);
    let node = v.insert_path(template)->0;
    v.lemma_after_search(line);
    v.lemma_added(line);
    lemma_nodes_after(v, line);
    lemma_insert_walk(v.tree, template, v.settings, steps);
    lemma_search_follows_insertion(v, after.tree, line, steps);
    assert(after.search_path(line) == Some(node));
    let ids = after.candidates(line);
    let i = ids.len() - 1;
    assert(ids[i] == id);
    assert(!holds_key(seen.clusters, id));
    lemma_inserted(
        seen.clusters,
        id,
        ClusterView { template, size: 1, local_id: id },
        v.capacity,
    );
    assert(holds_key(after.clusters, id));
    law_fresh_template_covers_line(line, v.settings.parameterize_numeric_tokens);
    law_covering_template_counts(template, line, line.len());
    assert(outranks(score(after, id, line), (0, 0)));
    assert forall|j: int|
        0 <= j < i && holds_key(after.clusters, #[trigger] ids[j]) implies outranks(
        score(after, id, line),
        score(after, ids[j], line),
    ) by {
        let x = ids[j];
        let known = with_way(v.tree, node);
        if node.count > 0 {
            lemma_filtered(known[node], seen.alive(), j);
        } else {
            assert(known[node][j] == x);
        }
        let n = known[node].index_of(x);
        assert(known[node].contains(x));
        assert(v.tree.contains_key(node) && v.tree[node][n] == x);
        lemma_way_is_known(v.tree, node);
        lemma_search_follows_insertion(v, v.tree, line, steps);
        assert(v.search_path(line) == Some(node));
        assert(v.candidates(line)[n] == x);
        assert(x <= v.clusters_count);
        assert(holds_key(seen.clusters, x));
        assert(holds_key(v.clusters, x));
        assert(after.cluster(x) == v.cluster(x));
        law_search_finds_the_first_best(v, line);
        if score(v, x, line).0 >= score(after, id, line).0 {
            law_more_matches_reach(
                v.settings.sim_threshold,
                score(after, id, line).0,
                score(v, x, line).0,
                places(line),
            );
        }
    }
    assert(is_first_best(after, ids, line, i, ids.len() as int));
    lemma_first_best_is_best(after, ids, line, i);
    law_covered_line_changes_nothing(template, line);
}

/// Whether a node has no more children than it may have, and fewer while it has no wildcard.
pub open spec fn node_has_room(tree: TreeView, node: Path, s: Settings) -> bool {
    let limit = child_limit(s.max_children as nat, node.steps.len() + 1);
    &&& children(tree, node).finite()
    &&& children(tree, node).len() <= limit
    &&& tree.contains_key(node.child(TokenView::Wildcard)) || children(tree, node).len() < limit
}

/// Whether every node of a tree has room, and a new one would have.
pub open spec fn roomy(v: ClassifierView) -> bool {
    &&& v.settings.max_children > 0
    &&& forall|p: Path| #[trigger] v.tree.contains_key(p) ==> node_has_room(v.tree, p, v.settings)
}

/// A classifier without a tree has room, and no nodes for tokens with numbers.
pub proof fn law_empty_tree_has_room(v: ClassifierView)
    requires
        v.tree == Map::<Path, Seq<usize>>::empty(),
        v.settings.max_children > 0,
    ensures
        roomy(v),
        numbers_are_open(v),
{
}

/// In a tree with room a token leads on from every node, known or not.
proof fn lemma_step_with_room(v: ClassifierView, node: Path, token: TokenView)
    requires
        roomy(v),
        has_parents(v.tree),
    ensures
        next_step(v.tree, node, token, v.settings) is Some,
        node_has_room(v.tree, node, v.settings),
{
    if !v.tree.contains_key(node) {
        assert(children(v.tree, node) =~= Set::empty());
    }
}

/// In a tree with room a walk gets to its end.
proof fn lemma_walk_with_room(v: ClassifierView, template: Seq<TokenView>, k: nat)
    requires
        roomy(v),
        has_parents(v.tree),
    ensures
        insert_walk(v.tree, template, v.settings, k) is Some,
    decreases k,
{
    if k > 0 {
        lemma_walk_with_room(v, template, (k - 1) as nat);
        lemma_step_with_room(
            v,
            insert_walk(v.tree, template, v.settings, (k - 1) as nat)->0,
            template[k - 1],
        );
    }
}

/// A classifier with room takes every line, until a counter is full.
pub proof fn law_room_for_every_line(v: ClassifierView, line: Seq<Seq<char>>)
    requires
        v.wf(),
        roomy(v),
        v.clusters_count < usize::MAX,
        forall|id: usize| #[trigger] holds_key(v.clusters, id) ==> v.cluster(id).size < usize::MAX,
    ensures
        v.accepts(line),
{
    v.lemma_found(line);
    let template = v.fresh(line);
    lemma_walk_with_room(
        v,
        template,
        walk_length(template.len(), v.settings.max_node_depth as nat),
    );
}

/// The nodes of a tree with one more cluster: those that were there, and those on the way to the
/// one that it is filed at.
proof fn lemma_nodes_filed(v: ClassifierView, template: Seq<TokenView>, id: usize)
    requires
        v.insert_path(template) is Some,
    ensures
        forall|p: Path| #[trigger]
            v.filed(v.insert_path(template)->0, id).contains_key(p) <==> v.tree.contains_key(p)
                || is_on_way(p, v.insert_path(template)->0),
{
    let node = v.insert_path(template)->0;
    assert(node.steps =~= node.steps.take(node.steps.len() as int));
}

/// What filing a cluster adds to the children of a node: the step that its template takes from
/// there, if it goes through the node.
proof fn lemma_children_filed(v: ClassifierView, template: Seq<TokenView>, id: usize, p: Path)
    requires
        v.insert_path(template) is Some,
    ensures
        ({
            let after = v.filed(v.insert_path(template)->0, id);
            ||| children(after, p) == children(v.tree, p) && after.contains_key(
                p.child(TokenView::Wildcard),
            ) == v.tree.contains_key(p.child(TokenView::Wildcard))
            ||| {
                let k = p.steps.len();
                &&& k < template.len()
                &&& insert_walk(v.tree, template, v.settings, k) == Some(p)
                &&& next_step(v.tree, p, template[k as int], v.settings) matches Some(t)
                    && children(after, p) == children(v.tree, p).insert(t)
                    && after.contains_key(p.child(t))
            }
        }),
{
    let node = v.insert_path(template)->0;
    let steps = walk_length(template.len(), v.settings.max_node_depth as nat);
    let after = v.filed(node, id);
    let k = p.steps.len();
    lemma_nodes_filed(v, template, id);
    lemma_insert_walk(v.tree, template, v.settings, steps);
    if is_on_way(p, node) && k < node.steps.len() {
        lemma_walk_goes_on(v.tree, template, v.settings, k, steps);
        lemma_walk_goes_on(v.tree, template, v.settings, k + 1, steps);
        lemma_insert_walk(v.tree, template, v.settings, k);
        lemma_insert_walk(v.tree, template, v.settings, k + 1);
        let here = insert_walk(v.tree, template, v.settings, k)->0;
        assert(here =~= p);
        let t = next_step(v.tree, p, template[k as int], v.settings)->0;
        assert(insert_walk(v.tree, template, v.settings, k + 1) == Some(p.child(t)));
        assert forall|u: TokenView| is_on_way(p.child(u), node) implies u == t by {
            assert(p.child(u).steps =~= p.child(t).steps);
            assert(p.child(u).steps.last() == p.child(t).steps.last());
        }
        assert(children(after, p) =~= children(v.tree, p).insert(t));
    } else {
        assert forall|u: TokenView| !is_on_way(#[trigger] p.child(u), node) by {
            if is_on_way(p.child(u), node) {
                assert(p.steps =~= p.child(u).steps.take(k as int));
                assert(node.steps.take((k + 1) as int).take(k as int) =~= node.steps.take(k as int));
            }
        }
        assert(children(after, p) =~= children(v.tree, p));
    }
}

/// There is a node for every template in a tree with room, and the tree has room still with a
/// cluster filed there.
pub proof fn law_filing_keeps_room(v: ClassifierView, template: Seq<TokenView>, id: usize)
    requires
        has_parents(v.tree),
        roomy(v),
    ensures
        v.insert_path(template) is Some,
        roomy((ClassifierView { tree: v.filed(v.insert_path(template)->0, id), ..v })),
{
    lemma_walk_with_room(
        v,
        template,
        walk_length(template.len(), v.settings.max_node_depth as nat),
    );
    let after = v.filed(v.insert_path(template)->0, id);
    assert forall|p: Path| #[trigger] after.contains_key(p) implies node_has_room(
        after,
        p,
        v.settings,
    ) by {
        lemma_nodes_filed(v, template, id);
        lemma_children_filed(v, template, id, p);
        lemma_step_with_room(v, p, TokenView::Wildcard);
        assert(children(v.tree, p).contains(TokenView::Wildcard) == v.tree.contains_key(
            p.child(TokenView::Wildcard),
        ));
        assert(children(after, p).contains(TokenView::Wildcard) == after.contains_key(
            p.child(TokenView::Wildcard),
        ));
    }
}

/// Room stays: no node ever has more children than it may have, and none is full without a
/// wildcard.
pub proof fn law_room_stays(v: ClassifierView, line: Seq<Seq<char>>)
    requires
        v.wf(),
        v.accepts(line),
        roomy(v),
    ensures
        roomy(v.added(line)),
{
    if v.search(line) is None {
        let seen = v.after_search(line);
        let id = (v.clusters_count + 1) as usize;
        law_filing_keeps_room(seen, v.fresh(line), id);
        let filed = ClassifierView {
            tree: seen.filed(seen.insert_path(v.fresh(line))->0, id),
            ..seen
        };
        assert(v.added(line).tree == filed.tree);
    }
}

/// With a cluster filed, its template takes the same way again.
proof fn lemma_walk_again(v: ClassifierView, template: Seq<TokenView>, id: usize, k: nat)
    requires
        v.insert_path(template) is Some,
        forall|p: Path| #[trigger] children(v.tree, p).finite(),
        k <= walk_length(template.len(), v.settings.max_node_depth as nat),
    ensures
        insert_walk(v.filed(v.insert_path(template)->0, id), template, v.settings, k)
            == insert_walk(v.tree, template, v.settings, k),
    decreases k,
{
    if k > 0 {
        let after = v.filed(v.insert_path(template)->0, id);
        let steps = walk_length(template.len(), v.settings.max_node_depth as nat);
        lemma_walk_again(v, template, id, (k - 1) as nat);
        lemma_walk_goes_on(v.tree, template, v.settings, (k - 1) as nat, steps);
        lemma_insert_walk(v.tree, template, v.settings, (k - 1) as nat);
        let p = insert_walk(v.tree, template, v.settings, (k - 1) as nat)->0;
        lemma_children_filed(v, template, id, p);
        assert(children(v.tree, p).finite());
        assert forall|t: TokenView|
            #![trigger p.child(t)]
            (after.contains_key(p.child(t)) <==> children(after, p).contains(t)) && (
            v.tree.contains_key(p.child(t)) <==> children(v.tree, p).contains(t)) by {}
        assert(next_step(after, p, template[k - 1], v.settings) == next_step(
            v.tree,
            p,
            template[k - 1],
            v.settings,
        ));
    }
}

/// A template that is filed again is filed at the same node, and makes no new one.
pub proof fn law_filing_again_makes_no_node(
    v: ClassifierView,
    template: Seq<TokenView>,
    id: usize,
    again: usize,
)
    requires
        v.insert_path(template) is Some,
        forall|p: Path| #[trigger] children(v.tree, p).finite(),
    ensures
        ({
            let node = v.insert_path(template)->0;
            let after = ClassifierView { tree: v.filed(node, id), ..v };
            &&& after.insert_path(template) == Some(node)
            &&& after.filed(node, again).dom() == after.tree.dom()
        }),
{
    let node = v.insert_path(template)->0;
    let after = ClassifierView { tree: v.filed(node, id), ..v };
    lemma_walk_again(
        v,
        template,
        id,
        walk_length(template.len(), v.settings.max_node_depth as nat),
    );
    lemma_nodes_filed(v, template, id);
    lemma_nodes_filed(after, template, again);
    assert(after.filed(node, again).dom() =~= after.tree.dom());
}

/// No node may have more children than the setting says.
pub proof fn law_limit_is_within_the_setting(max_children: nat, depth: nat)
    ensures
        child_limit(max_children, depth) <= max_children,
{
    if depth > 1 {
        vstd::arithmetic::div_mod::lemma_div_is_ordered_by_denominator(
            max_children as int,
            1,
            (2 * depth) as int,
        );
    }
}

/// Whether no node of a tree has more children than the setting says.
pub open spec fn within_setting(v: ClassifierView) -> bool {
    forall|p: Path| #[trigger]
        v.tree.contains_key(p) ==> children(v.tree, p).finite() && children(v.tree, p).len()
            <= v.settings.max_children
}

/// In a tree with room no node has more children than the setting says.
pub proof fn law_room_is_within_the_setting(v: ClassifierView)
    requires
        roomy(v),
    ensures
        within_setting(v),
{
    assert forall|p: Path| #[trigger] v.tree.contains_key(p) implies children(v.tree, p).finite()
        && children(v.tree, p).len() <= v.settings.max_children by {
        law_limit_is_within_the_setting(v.settings.max_children as nat, p.steps.len() + 1);
    }
}

/// Where no node may have children, none gets any.
pub proof fn law_no_children_where_none_may_be(v: ClassifierView, line: Seq<Seq<char>>)
    requires
        v.wf(),
        v.accepts(line),
        v.settings.max_children == 0,
        within_setting(v),
    ensures
        within_setting(v.added(line)),
{
    if v.search(line) is None {
        let seen = v.after_search(line);
        let template = v.fresh(line);
        let id = (v.clusters_count + 1) as usize;
        let after = v.added(line);
        assert forall|p: Path| #[trigger] after.tree.contains_key(p) implies children(
            after.tree,
            p,
        ).finite() && children(after.tree, p).len() == 0 by {
            assert forall|t: TokenView| !v.tree.contains_key(#[trigger] p.child(t)) by {
                if v.tree.contains_key(p.child(t)) {
                    assert(children(v.tree, p).contains(t));
                }
            }
            assert(children(v.tree, p) =~= Set::empty());
            lemma_children_filed(seen, template, id, p);
            law_limit_is_within_the_setting(0, p.steps.len() + 1);
        }
    }
}

/// Tokens with numbers stay without nodes of their own, where these are parameters.
pub proof fn law_numbers_stay_open(v: ClassifierView, line: Seq<Seq<char>>)
    requires
        v.accepts(line),
        numbers_are_open(v),
    ensures
        numbers_are_open(v.added(line)),
{
    let after = v.added(line);
    if v.search(line) is None && v.settings.parameterize_numeric_tokens {
        assert forall|p: Path, w: Seq<char>| #[trigger]
            after.tree.contains_key(p.child(TokenView::Value(w))) implies !has_numeric(w) by {
            lemma_children_filed(
                v.after_search(line),
                v.fresh(line),
                (v.clusters_count + 1) as usize,
                p,
            );
            assert(children(after.tree, p).contains(TokenView::Value(w)));
            if !v.tree.contains_key(p.child(TokenView::Value(w))) {
                assert(!children(v.tree, p).contains(TokenView::Value(w)));
            }
        }
    }
}

/// A line leaves no node in the tree that is deeper than the setting allows, or as deep as the line
/// is long.
pub proof fn law_depth_is_bounded(v: ClassifierView, line: Seq<Seq<char>>, p: Path)
    requires
        v.accepts(line),
        v.added(line).tree.contains_key(p),
        !v.tree.contains_key(p),
    ensures
        p.count == line.len(),
        p.steps.len() == 0 || p.steps.len() < v.settings.max_node_depth,
        p.steps.len() == 0 || p.steps.len() < line.len(),
{
    let template = v.fresh(line);
    if v.search(line) is None {
        lemma_nodes_after(v, line);
        lemma_insert_walk(
            v.tree,
            template,
            v.settings,
            walk_length(template.len(), v.settings.max_node_depth as nat),
        );
    }
}

/// Whether a cluster is filed at a node.
pub open spec fn is_filed_at(tree: TreeView, node: Path, id: usize) -> bool {
    tree.contains_key(node) && tree[node].contains(id)
}

/// Whether every cluster that is remembered is filed at a node, and no cluster is filed at two
/// nodes, or twice at one.
pub open spec fn filed_once(v: ClassifierView) -> bool {
    &&& forall|id: usize| #[trigger]
        holds_key(v.clusters, id) ==> exists|p: Path| #[trigger] is_filed_at(v.tree, p, id)
    &&& forall|p: Path, q: Path, id: usize|
        #![trigger is_filed_at(v.tree, p, id), is_filed_at(v.tree, q, id)]
        is_filed_at(v.tree, p, id) && is_filed_at(v.tree, q, id) ==> p == q
    &&& forall|p: Path| #[trigger] v.tree.contains_key(p) ==> v.tree[p].no_duplicates()
}

/// A filter makes nothing occur twice.
proof fn lemma_filter_keeps_apart(s: Seq<usize>, pred: spec_fn(usize) -> bool)
    requires
        s.no_duplicates(),
    ensures
        s.filter(pred).no_duplicates(),
    decreases s.len(),
{
    reveal(Seq::filter);
    if s.len() > 0 {
        let before = s.drop_last();
        lemma_filter_keeps_apart(before, pred);
        let kept = before.filter(pred);
        if pred(s.last()) {
            assert forall|i: int| 0 <= i < kept.len() implies kept[i] != s.last() by {
                lemma_filtered(before, pred, i);
                let j = before.index_of(kept[i]);
                assert(s[j] == kept[i]);
            }
        }
    }
}

/// A classifier that remembers nothing yet has nothing filed twice.
pub proof fn law_empty_tree_files_once(v: ClassifierView)
    requires
        v.tree == Map::<Path, Seq<usize>>::empty(),
        v.clusters.len() == 0,
    ensures
        filed_once(v),
{
}

/// Every cluster that is remembered stays filed at one node, once.
pub proof fn law_clusters_stay_filed_once(v: ClassifierView, line: Seq<Seq<char>>)
    requires
        v.wf(),
        v.accepts(line),
        filed_once(v),
    ensures
        filed_once(v.added(line)),
{
    let after = v.added(line);
    v.lemma_found(line);
    v.lemma_after_search(line);
    if v.search(line) is Some {
        lemma_found_line_stays_apart(v, line);
        assert(after.tree == v.tree);
        assert forall|k: usize| #[trigger] holds_key(after.clusters, k) implies exists|p: Path|
            #[trigger]
            is_filed_at(after.tree, p, k) by {
            assert(holds_key(v.clusters, k));
            let p = choose|p: Path| #[trigger] is_filed_at(v.tree, p, k);
            assert(is_filed_at(after.tree, p, k));
        }
    } else {
        let seen = v.after_search(line);
        let template = v.fresh(line);
        let node = v.insert_path(template)->0;
        let id = (v.clusters_count + 1) as usize;
        let known = with_way(v.tree, node);
        let alive = seen.alive();
        lemma_nodes_after(v, line);
        assert(!holds_key(seen.clusters, id));
        lemma_inserted(
            seen.clusters,
            id,
            ClusterView { template, size: 1, local_id: id },
            v.capacity,
        );
        assert(node.steps =~= node.steps.take(node.steps.len() as int));
        assert(known.contains_key(node));
        let kept = after.tree[node].drop_last();
        assert(kept =~= if node.count == 0 {
            known[node]
        } else {
            known[node].filter(alive)
        });
        assert(after.tree[node] =~= kept.push(id));
        assert forall|x: usize| kept.contains(x) implies known[node].contains(x) by {
            if node.count > 0 {
                lemma_filtered(known[node], alive, kept.index_of(x));
            }
        }
        assert forall|p: Path, x: usize| #[trigger]
            is_filed_at(after.tree, p, x) && x != id implies is_filed_at(v.tree, p, x) by {
            if p == node {
                let i = after.tree[node].index_of(x);
                assert(kept[i] == x);
                assert(kept.contains(x));
            }
            assert(known[p].contains(x));
        }
        assert forall|p: Path, x: usize| #[trigger] is_filed_at(v.tree, p, x) implies x != id by {
            let i = v.tree[p].index_of(x);
            assert(v.tree[p][i] == x);
        }
        assert forall|p: Path| #[trigger] is_filed_at(after.tree, p, id) <==> p == node by {
            assert(after.tree[node].last() == id);
            if p != node && is_filed_at(after.tree, p, id) {
                assert(is_filed_at(v.tree, p, id));
            }
        }
        assert forall|k: usize| #[trigger] holds_key(after.clusters, k) implies exists|p: Path|
            #[trigger]
            is_filed_at(after.tree, p, k) by {
            if k == id {
                assert(is_filed_at(after.tree, node, id));
            } else {
                assert(holds_key(seen.clusters, k));
                assert(holds_key(v.clusters, k));
                let p = choose|p: Path| #[trigger] is_filed_at(v.tree, p, k);
                assert(known[p] == v.tree[p]);
                if p == node {
                    let i = known[node].index_of(k);
                    known[node].lemma_filter_contains(alive, i);
                    assert(kept.contains(k));
                    assert(after.tree[node][kept.index_of(k)] == k);
                }
                assert(is_filed_at(after.tree, p, k));
            }
        }
        assert forall|p: Path| #[trigger]
            after.tree.contains_key(p) implies after.tree[p].no_duplicates() by {
            if p == node {
                lemma_filter_keeps_apart(known[node], alive);
                assert(kept.no_duplicates());
                assert forall|i: int| 0 <= i < kept.len() implies kept[i] != id by {
                    assert(kept.contains(kept[i]));
                    assert(known[node].contains(kept[i]));
                    assert(is_filed_at(v.tree, node, kept[i]));
                }
                assert(kept.push(id).no_duplicates());
            } else if v.tree.contains_key(p) {
                assert(after.tree[p] == v.tree[p]);
            } else {
                assert(after.tree[p] =~= seq![]);
            }
        }
        assert forall|p: Path, q: Path, x: usize|
            #![trigger is_filed_at(after.tree, p, x), is_filed_at(after.tree, q, x)]
            is_filed_at(after.tree, p, x) && is_filed_at(after.tree, q, x) implies p == q by {
            if x != id {
                assert(is_filed_at(v.tree, p, x) && is_filed_at(v.tree, q, x));
            }
        }
    }
}

/// Whether every template that is remembered has only words between white space for its fixed
/// tokens.
pub open spec fn templates_are_clean(v: ClassifierView) -> bool {
    forall|id: usize| #[trigger] holds_key(v.clusters, id) ==> is_clean(v.cluster(id).template)
}

/// Templates stay clean with one more text, and the written template of the cluster that takes it
/// splits back into its tokens. A classifier that remembers nothing has clean templates.
pub proof fn law_written_templates_split_back(v: ClassifierView, text: Seq<char>)
    requires
        v.wf(),
        v.accepts(words(text, v.settings.extra_delimiters)),
        templates_are_clean(v),
    ensures
        templates_are_clean(v.added(words(text, v.settings.extra_delimiters))),
        ({
            let template = v.added(words(text, v.settings.extra_delimiters)).clusters[0].1.template;
            words(template_text(template), seq![]) == token_texts(template)
        }),
{
    let line = words(text, v.settings.extra_delimiters);
    let after = v.added(line);
    v.lemma_found(line);
    v.lemma_added(line);
    law_line_is_covered_by_its_cluster(v, line);
    match v.search(line) {
        Some(id) => {
            law_absorption_keeps_clean(v.cluster(id).template, line);
        },
        None => {
            law_fresh_template_is_clean(
                text,
                v.settings.extra_delimiters,
                v.settings.parameterize_numeric_tokens,
            );
        },
    }
    lemma_value_at(after.clusters, 0);
    assert forall|id: usize| #[trigger] holds_key(after.clusters, id) implies is_clean(
        after.cluster(id).template,
    ) by {
        if id != after.clusters[0].0 {
            law_other_clusters_stay(v, line, id);
        }
    }
    law_written_template_splits_back(after.clusters[0].1.template);
}

/// How many lines some clusters have taken.
pub open spec fn lines_in(clusters: Seq<(usize, ClusterView)>) -> nat
    decreases clusters.len(),
{
    if clusters.len() == 0 {
        0
    } else {
        lines_in(clusters.drop_last()) + clusters.last().1.size as nat
    }
}

/// The lines of a cluster in front are added to those of the others.
proof fn lemma_lines_in_front(e: (usize, ClusterView), clusters: Seq<(usize, ClusterView)>)
    ensures
        lines_in(seq![e] + clusters) == e.1.size + lines_in(clusters),
    decreases clusters.len(),
{
    let all = seq![e] + clusters;
    if clusters.len() == 0 {
        assert(all.drop_last() =~= clusters);
    } else {
        lemma_lines_in_front(e, clusters.drop_last());
        assert(all.drop_last() =~= seq![e] + clusters.drop_last());
    }
}

/// The lines of a cluster and those of the others are all the lines.
proof fn lemma_lines_of_others(clusters: Seq<(usize, ClusterView)>, i: int)
    requires
        0 <= i < clusters.len(),
    ensures
        lines_in(clusters) == clusters[i].1.size + lines_in(clusters.remove(i)),
    decreases clusters.len(),
{
    if i == clusters.len() - 1 {
        assert(clusters.remove(i) =~= clusters.drop_last());
    } else {
        lemma_lines_of_others(clusters.drop_last(), i);
        assert(clusters.remove(i).drop_last() =~= clusters.drop_last().remove(i));
    }
}

/// The use of clusters leaves the lines that they have taken.
proof fn lemma_lines_touched(clusters: Seq<(usize, ClusterView)>, ids: Seq<usize>, k: nat)
    ensures
        lines_in(touched(clusters, ids, k)) == lines_in(clusters),
    decreases k,
{
    if k > 0 {
        let before = touched(clusters, ids, (k - 1) as nat);
        lemma_lines_touched(clusters, ids, (k - 1) as nat);
        if holds_key(before, ids[k - 1]) {
            let i = lemma_place(before, ids[k - 1]);
            lemma_lines_of_others(before, i);
            lemma_lines_in_front(before[i], before.remove(i));
        }
    }
}

/// With every line the clusters that are remembered have taken one line more, without those of the
/// cluster that is forgotten for it, if there is one.
pub proof fn law_lines_add_up(v: ClassifierView, line: Seq<Seq<char>>)
    requires
        v.wf(),
        v.accepts(line),
    ensures
        lines_in(v.added(line).clusters) + if v.search(line) is None && v.clusters.len()
            == v.capacity {
            v.after_search(line).clusters.last().1.size as nat
        } else {
            0
        } == lines_in(v.clusters) + 1,
{
    let seen = v.after_search(line);
    let after = v.added(line);
    let ids = v.candidates(line);
    v.lemma_found(line);
    v.lemma_after_search(line);
    lemma_touched(v.clusters, ids, ids.len());
    lemma_lines_touched(v.clusters, ids, ids.len());
    match v.search(line) {
        Some(id) => {
            assert(holds_key(seen.clusters, id));
            let i = lemma_place(seen.clusters, id);
            lemma_lines_of_others(seen.clusters, i);
            lemma_lines_in_front(after.clusters[0], seen.clusters.remove(i));
            assert(after.clusters =~= seq![after.clusters[0]] + seen.clusters.remove(i));
            assert(v.cluster(id) == seen.clusters[i].1);
        },
        None => {
            let kept = if seen.clusters.len() == v.capacity {
                seen.clusters.drop_last()
            } else {
                seen.clusters
            };
            assert(after.clusters =~= seq![after.clusters[0]] + kept);
            lemma_lines_in_front(after.clusters[0], kept);
        },
    }
}

/// Whether a classifier remembers as many clusters as it has made, up to its capacity.
pub open spec fn remembers_what_fits(v: ClassifierView) -> bool {
    v.clusters.len() == if v.clusters_count <= v.capacity {
        v.clusters_count as nat
    } else {
        v.capacity
    }
}

/// Whether the clusters that are remembered are all that were made, while these fit.
pub open spec fn forgets_none_that_fits(v: ClassifierView) -> bool {
    v.clusters_count <= v.capacity ==> forall|id: usize| #[trigger]
        holds_key(v.clusters, id) <==> 1 <= id <= v.clusters_count
}

/// A classifier goes on to remember as many clusters as fit, and all of them while they fit.
pub proof fn law_what_fits_is_remembered(v: ClassifierView, line: Seq<Seq<char>>)
    requires
        v.wf(),
        v.accepts(line),
        remembers_what_fits(v),
        forgets_none_that_fits(v),
    ensures
        remembers_what_fits(v.added(line)),
        forgets_none_that_fits(v.added(line)),
{
    let seen = v.after_search(line);
    let after = v.added(line);
    let ids = v.candidates(line);
    v.lemma_found(line);
    v.lemma_after_search(line);
    lemma_touched(v.clusters, ids, ids.len());
    match v.search(line) {
        Some(id) => {
            assert(holds_key(seen.clusters, id));
            lemma_promoted(seen.clusters, id);
            lemma_found_line_stays_apart(v, line);
        },
        None => {
            let new = (v.clusters_count + 1) as usize;
            if after.clusters_count <= after.capacity {
                assert forall|k: usize| #[trigger]
                    holds_key(after.clusters, k) <==> 1 <= k <= after.clusters_count by {
                    if k == new {
                        assert(keys(after.clusters)[0] == k);
                    } else if holds_key(after.clusters, k) {
                        let i = lemma_place(after.clusters, k);
                        assert(keys(seen.clusters)[i - 1] == k);
                        assert(holds_key(v.clusters, k));
                    } else if 1 <= k <= v.clusters_count {
                        assert(holds_key(v.clusters, k));
                        let i = lemma_place(seen.clusters, k);
                        assert(keys(after.clusters)[i + 1] == k);
                    }
                }
            }
        },
    }
}

/// The classifier after some lines, one after the other.
pub open spec fn added_all(v: ClassifierView, lines: Seq<Seq<Seq<char>>>) -> ClassifierView
    decreases lines.len(),
{
    if lines.len() == 0 {
        v
    } else {
        added_all(v, lines.drop_last()).added(lines.last())
    }
}

/// Whether some lines can be taken, one after the other.
pub open spec fn accepts_all(v: ClassifierView, lines: Seq<Seq<Seq<char>>>) -> bool
    decreases lines.len(),
{
    lines.len() > 0 ==> accepts_all(v, lines.drop_last()) && added_all(
        v,
        lines.drop_last(),
    ).accepts(lines.last())
}

/// A classifier that started out empty remembers as many clusters as it has made, up to its
/// capacity. While all fit, they are numbered from one on without a gap, and the lines that they
/// have taken are all the lines.
pub proof fn law_lines_are_counted(v: ClassifierView, lines: Seq<Seq<Seq<char>>>)
    requires
        v.wf(),
        v.clusters.len() == 0,
        v.clusters_count == 0,
        accepts_all(v, lines),
    ensures
        added_all(v, lines).wf(),
        remembers_what_fits(added_all(v, lines)),
        forgets_none_that_fits(added_all(v, lines)),
        added_all(v, lines).clusters_count <= added_all(v, lines).capacity ==> lines_in(
            added_all(v, lines).clusters,
        ) == lines.len(),
    decreases lines.len(),
{
    if lines.len() > 0 {
        let before = added_all(v, lines.drop_last());
        law_lines_are_counted(v, lines.drop_last());
        before.lemma_added(lines.last());
        law_what_fits_is_remembered(before, lines.last());
        law_lines_add_up(before, lines.last());
    }
}

/// A cluster keeps its identifier as long as its template does not change.
pub proof fn law_unchanged_template_keeps_id(v: ClassifierView, line: Seq<Seq<char>>)
    requires
        v.wf(),
        v.accepts(line),
        !v.changes_template(line),
    ensures
        v.search(line) matches Some(id) && template_id(v.added(line).clusters[0].1.template)
            == template_id(v.cluster(id).template),
{
    law_line_is_covered_by_its_cluster(v, line);
}

/// Of all the clusters at the node of a line that are remembered, the line belongs to the one with
/// the most matches, then with the most open places, then the first, if it has a match or an open
/// place and its matches, out of all the words of the line, reach the threshold. Where it belongs to
/// none, there is no such cluster.
pub proof fn law_line_belongs_to_the_most_similar(
    v: ClassifierView,
    line: Seq<Seq<char>>,
    node: Path,
    j: int,
)
    requires
        v.search_path(line) == Some(node),
        0 <= j < v.tree[node].len(),
        holds_key(v.clusters, v.tree[node][j]),
    ensures
        ({
            let ids = v.tree[node];
            let whole = if line.len() == 0 {
                1
            } else {
                line.len()
            };
            let other = v.cluster(ids[j]).template;
            let matched = similarity(other, line).0;
            let open = wildcards(other, line.len());
            match v.search(line) {
                Some(id) => {
                    let own = v.cluster(id).template;
                    let most = similarity(own, line).0;
                    let most_open = wildcards(own, line.len());
                    &&& ids.contains(id)
                    &&& holds_key(v.clusters, id)
                    &&& most > 0 || most_open > 0
                    &&& v.settings.sim_threshold.reached_by(most, whole)
                    &&& most > matched || (most == matched && most_open > open) || (most == matched
                        && most_open == open && ids.take(j + 1).contains(id))
                },
                None => (matched == 0 && open == 0) || !v.settings.sim_threshold.reached_by(
                    matched,
                    whole,
                ),
            }
        }),
{
    let ids = v.tree[node];
    assert(v.candidates(line) == ids);
    law_search_finds_the_first_best(v, line);
    if v.search(line) is Some {
        let id = v.search(line)->0;
        let i = choose|i: int| #[trigger]
            is_first_best(v, ids, line, i, ids.len() as int) && ids[i] == id
                && v.settings.sim_threshold.reached_by(score(v, id, line).0, places(line));
        assert(is_first_best(v, ids, line, i, ids.len() as int));
        assert(!outranks(score(v, ids[j], line), score(v, ids[i], line)));
        assert(ids.contains(id));
        if j < i {
            assert(outranks(score(v, ids[i], line), score(v, ids[j], line)));
        } else {
            assert(ids.take(j + 1)[i] == id);
        }
    } else {
        assert(v.candidates(line)[j] == ids[j]);
    }
}

/// A line that belongs to no cluster makes one with the next number, of one line, in which the words
/// with numbers are open where numbers are parameters, and all others are fixed. A line that belongs
/// to a cluster is counted there, and opens the places that hold another word, and no others.
pub proof fn law_what_becomes_of_a_line(v: ClassifierView, line: Seq<Seq<char>>, i: int)
    requires
        v.wf(),
        v.accepts(line),
        0 <= i < line.len(),
    ensures
        ({
            let cluster = v.added(line).clusters[0].1;
            &&& cluster.template.len() == line.len()
            &&& match v.search(line) {
                Some(id) => {
                    &&& cluster.local_id == id
                    &&& cluster.size == v.cluster(id).size + 1
                    &&& cluster.template[i] == if v.cluster(id).template[i] == TokenView::Value(
                        line[i],
                    ) {
                        TokenView::Value(line[i])
                    } else {
                        TokenView::Wildcard
                    }
                },
                None => {
                    &&& cluster.local_id == v.clusters_count + 1
                    &&& cluster.size == 1
                    &&& cluster.template[i] == if v.settings.parameterize_numeric_tokens
                        && has_numeric(line[i]) {
                        TokenView::Wildcard
                    } else {
                        TokenView::Value(line[i])
                    }
                },
            }
        }),
{
    v.lemma_found(line);
    law_line_is_covered_by_its_cluster(v, line);
}

/// A line makes a template or changes one exactly where it belongs to no cluster, or its cluster
/// has a fixed token that is not the word of the line.
pub proof fn law_when_a_template_changes(v: ClassifierView, line: Seq<Seq<char>>)
    requires
        v.wf(),
    ensures
        v.search(line) is None ==> v.changes_template(line),
        v.search(line) matches Some(id) ==> (v.changes_template(line) <==> exists|i: int|
            0 <= i < line.len() && (#[trigger] v.cluster(id).template[i]) is Value && v.cluster(
                id,
            ).template[i] != TokenView::Value(line[i])),
{
    v.lemma_found(line);
    if let Some(id) = v.search(line) {
        let template = v.cluster(id).template;
        if forall|i: int|
            0 <= i < line.len() && (#[trigger] template[i]) is Value ==> template[i]
                == TokenView::Value(line[i]) {
            assert(absorbed(template, line) =~= template);
        } else {
            let i = choose|i: int|
                0 <= i < line.len() && (#[trigger] template[i]) is Value && template[i]
                    != TokenView::Value(line[i]);
            assert(absorbed(template, line)[i] == TokenView::Wildcard);
        }
    }
}

/// A new classifier remembers as many clusters as it is told to and has taken no line. It takes a
/// line to a cluster where at least two words in five match, goes down to the depth eight, lets a
/// root have a hundred children, takes tokens with numbers for parameters, and splits at white space
/// alone.
pub proof fn law_new_classifier(capacity: nat, matched: nat, total: nat, p: Path)
    requires
        0 < total < 0x4_0000_0000_0000,
    ensures
        ({
            let v = ClassifierView::initial(capacity);
            &&& v.capacity == capacity
            &&& v.clusters.len() == 0
            &&& v.clusters_count == 0
            &&& !v.tree.contains_key(p)
            &&& v.settings.sim_threshold.reached_by(matched, total) <==> 5 * matched >= 2 * total
            &&& v.settings.max_node_depth == 8
            &&& v.settings.max_children == 100
            &&& v.settings.parameterize_numeric_tokens
            &&& v.settings.extra_delimiters.len() == 0
        }),
{
    law_two_fifths(matched, total);
}

/// Each setting takes the value that it is given, whatever it is and whatever the others are, and
/// setting one leaves the others, the tree and the clusters.
pub proof fn law_settings_take_their_values(
    v: ClassifierView,
    threshold: SimThreshold,
    depth: usize,
    most: usize,
    parameterize: bool,
    extra: Seq<char>,
)
    ensures
        ({
            let w = v.with_sim_threshold(threshold).with_max_node_depth(depth).with_max_children(
                most,
            ).with_parameterize_numeric_tokens(parameterize).with_extra_delimiters(extra);
            let u = v.with_extra_delimiters(extra).with_parameterize_numeric_tokens(
                parameterize,
            ).with_max_children(most).with_max_node_depth(depth).with_sim_threshold(threshold);
            &&& w == u
            &&& w.settings.sim_threshold == threshold
            &&& w.settings.max_node_depth == depth
            &&& w.settings.max_children == most
            &&& w.settings.parameterize_numeric_tokens == parameterize
            &&& w.settings.extra_delimiters == extra
            &&& w.tree == v.tree
            &&& w.clusters == v.clusters
            &&& w.capacity == v.capacity
            &&& w.clusters_count == v.clusters_count
        }),
        v.with_sim_threshold(v.settings.sim_threshold) == v,
        v.with_max_node_depth(v.settings.max_node_depth) == v,
        v.with_max_children(v.settings.max_children) == v,
        v.with_parameterize_numeric_tokens(v.settings.parameterize_numeric_tokens) == v,
        v.with_extra_delimiters(v.settings.extra_delimiters) == v,
{
}

}
