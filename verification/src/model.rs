//! What a classifier does, over mathematical values.
use crate::cache::{
    holds_key, inserted, keys, lemma_front_changed, lemma_inserted, lemma_promoted, promoted,
    value_of,
};
use crate::cluster::{absorbed, fresh_template, similarity, wildcards, ClusterView};
use crate::similarity::SimThreshold;
use crate::token::TokenView;
use crate::tree::{children, with_node, Path, TreeView};
use vstd::prelude::*;

verus! {

/// The settings of a classifier.
pub struct Settings {
    pub sim_threshold: SimThreshold,
    pub max_node_depth: usize,
    pub max_children: usize,
    pub parameterize_numeric_tokens: bool,
    pub extra_delimiters: Seq<char>,
}

/// How many steps down from its root a line goes: up to the greatest depth, and never past its
/// last token but one.
pub open spec fn walk_length(count: nat, max_node_depth: nat) -> nat {
    if count == 0 || max_node_depth == 0 {
        0
    } else if count < max_node_depth {
        (count - 1) as nat
    } else {
        (max_node_depth - 1) as nat
    }
}

/// How many children a node at some depth may have. Below the roots it is a share of the setting
/// that shrinks with the depth, but two where the setting is two or more. It is never more than the
/// setting.
pub open spec fn child_limit(max_children: nat, depth: nat) -> nat {
    if depth > 1 {
        let share = max_children / (2 * depth);
        if max_children < 2 {
            max_children
        } else if share < 2 {
            2
        } else {
            share
        }
    } else {
        max_children
    }
}

/// The child of a node that a token of a new template leads to: its own where there is one or
/// where there is room for it, else that of the wildcard. There is none where a node without a
/// wildcard has as many children as it may.
pub open spec fn next_step(tree: TreeView, node: Path, token: TokenView, s: Settings) -> Option<
    TokenView,
> {
    let limit = child_limit(s.max_children as nat, node.steps.len() + 1);
    let count = children(tree, node).len();
    if tree.contains_key(node.child(token)) {
        Some(token)
    } else if s.parameterize_numeric_tokens && token.has_numbers() {
        Some(TokenView::Wildcard)
    } else if tree.contains_key(node.child(TokenView::Wildcard)) {
        if count < limit {
            Some(token)
        } else {
            Some(TokenView::Wildcard)
        }
    } else if count + 1 < limit {
        Some(token)
    } else if count + 1 == limit {
        Some(TokenView::Wildcard)
    } else {
        None
    }
}

/// The node that the first `k` tokens of a new template lead to.
pub open spec fn insert_walk(
    tree: TreeView,
    template: Seq<TokenView>,
    s: Settings,
    k: nat,
) -> Option<Path>
    decreases k,
{
    if k == 0 {
        Some(Path::root(template.len()))
    } else {
        match insert_walk(tree, template, s, (k - 1) as nat) {
            Some(node) => match next_step(tree, node, template[k - 1], s) {
                Some(t) => Some(node.child(t)),
                None => None,
            },
            None => None,
        }
    }
}

/// The node that the first `k` tokens of a line lead to, each by its own child where there is one,
/// else by that of the wildcard.
pub open spec fn search_walk(tree: TreeView, line: Seq<Seq<char>>, k: nat) -> Option<Path>
    decreases k,
{
    if k == 0 {
        if tree.contains_key(Path::root(line.len())) {
            Some(Path::root(line.len()))
        } else {
            None
        }
    } else {
        match search_walk(tree, line, (k - 1) as nat) {
            Some(node) => if tree.contains_key(node.child(TokenView::Value(line[k - 1]))) {
                Some(node.child(TokenView::Value(line[k - 1])))
            } else if tree.contains_key(node.child(TokenView::Wildcard)) {
                Some(node.child(TokenView::Wildcard))
            } else {
                None
            },
            None => None,
        }
    }
}

/// Whether the way to a node goes through another, or ends there.
pub open spec fn is_on_way(p: Path, node: Path) -> bool {
    &&& p.count == node.count
    &&& p.steps.len() <= node.steps.len()
    &&& p.steps == node.steps.take(p.steps.len() as int)
}

/// Whether every node of a tree but the roots has its parent there.
pub open spec fn has_parents(tree: TreeView) -> bool {
    forall|p: Path, t: TokenView| #[trigger] tree.contains_key(p.child(t)) ==> tree.contains_key(p)
}

/// A tree with all the nodes on the way to a node. Those that are new have no clusters yet.
pub open spec fn with_way(tree: TreeView, node: Path) -> TreeView {
    Map::new(
        |p: Path| tree.contains_key(p) || is_on_way(p, node),
        |p: Path|
            if tree.contains_key(p) {
                tree[p]
            } else {
                seq![]
            },
    )
}

/// The best cluster among some: how many of its places match, how many are open, and which it is.
pub struct Best {
    pub matched: nat,
    pub wildcards: nat,
    pub id: Option<usize>,
}

/// The entries once some keys have been used, one after the other.
pub open spec fn touched<V>(entries: Seq<(usize, V)>, ids: Seq<usize>, k: nat) -> Seq<(usize, V)>
    decreases k,
{
    if k == 0 {
        entries
    } else {
        promoted(touched(entries, ids, (k - 1) as nat), ids[k - 1])
    }
}

/// How many places a line is compared in.
pub open spec fn places(line: Seq<Seq<char>>) -> nat {
    if line.len() == 0 {
        1
    } else {
        line.len()
    }
}

/// The model of a classifier: its tree, the clusters that it remembers, from the one used last to
/// the one used longest ago, how many it remembers at most, how many it has made, and its
/// settings.
pub struct ClassifierView {
    pub tree: TreeView,
    pub clusters: Seq<(usize, ClusterView)>,
    pub capacity: nat,
    pub clusters_count: usize,
    pub settings: Settings,
}

impl ClassifierView {
    /// A classifier that has taken no line yet and remembers up to so many clusters, with the usual
    /// settings.
    pub open spec fn initial(capacity: nat) -> ClassifierView {
        ClassifierView {
            tree: Map::empty(),
            clusters: Seq::empty(),
            capacity,
            clusters_count: 0,
            settings: Settings {
                sim_threshold: SimThreshold { bits: 0x3FD9_9999_9999_999A },
                max_node_depth: 8,
                max_children: 100,
                parameterize_numeric_tokens: true,
                extra_delimiters: Seq::empty(),
            },
        }
    }

    /// The classifier with another similarity threshold.
    pub open spec fn with_sim_threshold(self, value: SimThreshold) -> ClassifierView {
        ClassifierView { settings: Settings { sim_threshold: value, ..self.settings }, ..self }
    }

    /// The classifier with another greatest depth of the tree.
    pub open spec fn with_max_node_depth(self, value: usize) -> ClassifierView {
        ClassifierView { settings: Settings { max_node_depth: value, ..self.settings }, ..self }
    }

    /// The classifier with another greatest number of children of a node.
    pub open spec fn with_max_children(self, value: usize) -> ClassifierView {
        ClassifierView { settings: Settings { max_children: value, ..self.settings }, ..self }
    }

    /// The classifier that takes tokens with numbers for parameters, or does not.
    pub open spec fn with_parameterize_numeric_tokens(self, value: bool) -> ClassifierView {
        ClassifierView {
            settings: Settings { parameterize_numeric_tokens: value, ..self.settings },
            ..self
        }
    }

    /// The classifier with other characters that separate tokens, besides white space.
    pub open spec fn with_extra_delimiters(self, value: Seq<char>) -> ClassifierView {
        ClassifierView { settings: Settings { extra_delimiters: value, ..self.settings }, ..self }
    }

    /// The cluster with a local identifier.
    pub open spec fn cluster(self, id: usize) -> ClusterView {
        value_of(self.clusters, id)
    }

    /// What holds of every classifier: its clusters are under their own identifiers, which it has
    /// given out, there are no more than it may remember, and each is as long as the lines of the
    /// tree that it is in.
    pub open spec fn wf(self) -> bool {
        &&& keys(self.clusters).no_duplicates()
        &&& self.clusters.len() <= self.capacity
        &&& 0 < self.capacity
        &&& has_parents(self.tree)
        &&& forall|id: usize| #[trigger]
            holds_key(self.clusters, id) ==> 1 <= id <= self.clusters_count && self.cluster(
                id,
            ).local_id == id
        &&& forall|p: Path, i: int| #[trigger]
            self.tree.contains_key(p) && 0 <= i < self.tree[p].len() ==> 1 <= #[trigger] self.tree[p][i]
                <= self.clusters_count
        &&& forall|p: Path, i: int| #[trigger]
            self.tree.contains_key(p) && 0 <= i < self.tree[p].len() && holds_key(
                self.clusters,
                #[trigger] self.tree[p][i],
            ) ==> self.cluster(self.tree[p][i]).template.len() == p.count
    }

    /// The node where the clusters are that a line may belong to.
    pub open spec fn search_path(self, line: Seq<Seq<char>>) -> Option<Path> {
        search_walk(
            self.tree,
            line,
            walk_length(line.len(), self.settings.max_node_depth as nat),
        )
    }

    /// The clusters that a line may belong to, in the order of the node.
    pub open spec fn candidates(self, line: Seq<Seq<char>>) -> Seq<usize> {
        match self.search_path(line) {
            Some(p) => self.tree[p],
            None => seq![],
        }
    }

    /// The best of the first `k` clusters of a list for a line: the one with the most matches,
    /// then with the most open places, then the first. A cluster that has neither, and one that is
    /// not remembered any more, is passed over.
    pub open spec fn best(self, ids: Seq<usize>, line: Seq<Seq<char>>, k: nat) -> Best
        decreases k,
    {
        if k == 0 {
            Best { matched: 0, wildcards: 0, id: None }
        } else {
            let so_far = self.best(ids, line, (k - 1) as nat);
            let id = ids[k - 1];
            let template = self.cluster(id).template;
            let matched = similarity(template, line).0;
            let open = wildcards(template, line.len());
            if holds_key(self.clusters, id) && (matched > so_far.matched || (matched
                == so_far.matched && open > so_far.wildcards)) {
                Best { matched, wildcards: open, id: Some(id) }
            } else {
                so_far
            }
        }
    }

    /// The cluster that a line belongs to: the best at its node, if that is similar enough.
    pub open spec fn search(self, line: Seq<Seq<char>>) -> Option<usize> {
        let ids = self.candidates(line);
        let best = self.best(ids, line, ids.len());
        if self.settings.sim_threshold.reached_by(best.matched, places(line)) {
            best.id
        } else {
            None
        }
    }

    /// The classifier after a search: the clusters at the node of the line have been used.
    pub open spec fn after_search(self, line: Seq<Seq<char>>) -> ClassifierView {
        let ids = self.candidates(line);
        ClassifierView { clusters: touched(self.clusters, ids, ids.len()), ..self }
    }

    /// The node that a new template is filed at.
    pub open spec fn insert_path(self, template: Seq<TokenView>) -> Option<Path> {
        insert_walk(
            self.tree,
            template,
            self.settings,
            walk_length(template.len(), self.settings.max_node_depth as nat),
        )
    }

    /// Whether the cluster with a local identifier is remembered.
    pub open spec fn alive(self) -> spec_fn(usize) -> bool {
        |id: usize| holds_key(self.clusters, id)
    }

    /// The tree with one more cluster at a node. The clusters there that are not remembered any
    /// more are dropped, except at the node of the empty lines.
    pub open spec fn filed(self, node: Path, id: usize) -> TreeView {
        let tree = with_way(self.tree, node);
        let ids = if node.count == 0 {
            tree[node]
        } else {
            tree[node].filter(self.alive())
        };
        tree.insert(node, ids.push(id))
    }

    /// The classifier with a new cluster for one line.
    pub open spec fn with_cluster(self, template: Seq<TokenView>) -> ClassifierView {
        let id = (self.clusters_count + 1) as usize;
        let cluster = ClusterView { template, size: 1, local_id: id };
        ClassifierView {
            tree: self.filed(self.insert_path(template)->0, id),
            clusters: inserted(self.clusters, id, cluster, self.capacity),
            clusters_count: id,
            ..self
        }
    }

    /// The classifier with one more line in a cluster, which it has then used.
    pub open spec fn with_line(self, id: usize, line: Seq<Seq<char>>) -> ClassifierView {
        let before = self.cluster(id);
        let after = ClusterView {
            template: absorbed(before.template, line),
            size: (before.size + 1) as usize,
            ..before
        };
        ClassifierView {
            clusters: promoted(self.clusters, id).update(0, (id, after)),
            ..self
        }
    }

    /// The template that a line starts out with.
    pub open spec fn fresh(self, line: Seq<Seq<char>>) -> Seq<TokenView> {
        fresh_template(line, self.settings.parameterize_numeric_tokens)
    }

    /// Whether a line can be taken: there is a node to file it at, and the counters do not
    /// overflow.
    pub open spec fn accepts(self, line: Seq<Seq<char>>) -> bool {
        match self.search(line) {
            Some(id) => self.cluster(id).size < usize::MAX,
            None => self.clusters_count < usize::MAX && self.insert_path(self.fresh(line)) is Some,
        }
    }

    /// The classifier with one more line. The cluster that has taken it comes first.
    pub open spec fn added(self, line: Seq<Seq<char>>) -> ClassifierView {
        match self.search(line) {
            Some(id) => self.after_search(line).with_line(id, line),
            None => self.after_search(line).with_cluster(self.fresh(line)),
        }
    }

    /// Whether one more line makes a template or changes one.
    pub open spec fn changes_template(self, line: Seq<Seq<char>>) -> bool {
        match self.search(line) {
            Some(id) => absorbed(self.cluster(id).template, line) != self.cluster(id).template,
            None => true,
        }
    }
}

/// The use of some keys changes neither which keys there are nor what they stand for.
pub(crate) proof fn lemma_touched<V>(entries: Seq<(usize, V)>, ids: Seq<usize>, k: nat)
    requires
        keys(entries).no_duplicates(),
    ensures
        keys(touched(entries, ids, k)).no_duplicates(),
        touched(entries, ids, k).len() == entries.len(),
        forall|id: usize| holds_key(touched(entries, ids, k), id) <==> holds_key(entries, id),
        forall|id: usize| #[trigger]
            holds_key(entries, id) ==> value_of(touched(entries, ids, k), id) == value_of(
                entries,
                id,
            ),
    decreases k,
{
    if k > 0 {
        let before = touched(entries, ids, (k - 1) as nat);
        lemma_touched(entries, ids, (k - 1) as nat);
        lemma_promoted(before, ids[k - 1]);
        assert forall|id: usize| #[trigger] holds_key(entries, id) implies value_of(
            touched(entries, ids, k),
            id,
        ) == value_of(entries, id) by {
            assert(holds_key(before, id));
        }
    }
}

/// A search ends at a node of the tree, as deep as it went.
pub(crate) proof fn lemma_search_walk(tree: TreeView, line: Seq<Seq<char>>, k: nat)
    ensures
        search_walk(tree, line, k) matches Some(p) ==> tree.contains_key(p) && p.count == line.len()
            && p.steps.len() == k,
    decreases k,
{
    if k > 0 {
        lemma_search_walk(tree, line, (k - 1) as nat);
    }
}

/// A new template is filed as deep as its walk goes.
pub(crate) proof fn lemma_insert_walk(
    tree: TreeView,
    template: Seq<TokenView>,
    s: Settings,
    k: nat,
)
    ensures
        insert_walk(tree, template, s, k) matches Some(p) ==> p.count == template.len()
            && p.steps.len() == k,
    decreases k,
{
    if k > 0 {
        lemma_insert_walk(tree, template, s, (k - 1) as nat);
    }
}

/// The way to a child is the way to its parent and one node more.
pub(crate) proof fn lemma_way_to_child(tree: TreeView, node: Path, t: TokenView)
    ensures
        with_way(tree, node.child(t)) == with_node(with_way(tree, node), node.child(t)),
        with_way(tree, node).contains_key(node),
{
    let c = node.child(t);
    assert forall|p: Path| is_on_way(p, c) <==> is_on_way(p, node) || p == c by {
        if is_on_way(p, c) {
            if p.steps.len() == c.steps.len() {
                assert(p.steps =~= c.steps);
                assert(p =~= c);
            } else {
                assert(node.steps.take(p.steps.len() as int) =~= c.steps.take(
                    p.steps.len() as int,
                ));
            }
        }
        if is_on_way(p, node) {
            assert(node.steps.take(p.steps.len() as int) =~= c.steps.take(p.steps.len() as int));
        }
        if p == c {
            assert(p.steps =~= c.steps.take(p.steps.len() as int));
        }
    }
    assert(with_way(tree, c) =~= with_node(with_way(tree, node), c));
    assert(node.steps =~= node.steps.take(node.steps.len() as int));
}

/// The way to a root is the root.
pub(crate) proof fn lemma_way_to_root(tree: TreeView, count: nat)
    ensures
        with_way(tree, Path::root(count)) == with_node(tree, Path::root(count)),
{
    let root = Path::root(count);
    assert forall|p: Path| is_on_way(p, root) <==> p == root by {
        if is_on_way(p, root) {
            assert(p.steps =~= root.steps);
            assert(p =~= root);
        }
        assert(root.steps =~= root.steps.take(0));
    }
    assert(with_way(tree, root) =~= with_node(tree, root));
}

/// The way to a node leaves no node without its parent.
pub(crate) proof fn lemma_way_has_parents(tree: TreeView, node: Path)
    requires
        has_parents(tree),
    ensures
        has_parents(with_way(tree, node)),
{
    let after = with_way(tree, node);
    assert forall|p: Path, t: TokenView| #[trigger]
        after.contains_key(p.child(t)) implies after.contains_key(p) by {
        if !tree.contains_key(p.child(t)) {
            let n = p.steps.len() as int;
            assert(p.steps =~= p.child(t).steps.take(n));
            assert(node.steps.take(n + 1).take(n) =~= node.steps.take(n));
        }
    }
}

/// What a filter lets through was there before.
pub(crate) proof fn lemma_filtered(s: Seq<usize>, pred: spec_fn(usize) -> bool, i: int)
    requires
        0 <= i < s.filter(pred).len(),
    ensures
        s.contains(s.filter(pred)[i]),
        pred(s.filter(pred)[i]),
    decreases s.len(),
{
    reveal(Seq::filter);
    let before = s.drop_last();
    if i < before.filter(pred).len() {
        lemma_filtered(before, pred, i);
        let j = before.index_of(before.filter(pred)[i]);
        assert(s[j] == before.filter(pred)[i]);
    } else {
        assert(s[s.len() - 1] == s.filter(pred)[i]);
    }
}

impl ClassifierView {
    /// The best of some clusters is one of them, with its own counts.
    pub(crate) proof fn lemma_best(self, ids: Seq<usize>, line: Seq<Seq<char>>, k: nat)
        requires
            k <= ids.len(),
        ensures
            match self.best(ids, line, k).id {
                Some(id) => {
                    &&& holds_key(self.clusters, id)
                    &&& exists|i: int| 0 <= i < k && #[trigger] ids[i] == id
                    &&& self.best(ids, line, k).matched == similarity(
                        self.cluster(id).template,
                        line,
                    ).0
                    &&& self.best(ids, line, k).wildcards == wildcards(
                        self.cluster(id).template,
                        line.len(),
                    )
                },
                None => self.best(ids, line, k).matched == 0 && self.best(ids, line, k).wildcards
                    == 0,
            },
        decreases k,
    {
        if k > 0 {
            self.lemma_best(ids, line, (k - 1) as nat);
            assert(ids[k - 1] == ids[k - 1]);
        }
    }

    /// The cluster that a search finds is remembered, at the node of the line, and as long as the
    /// line.
    pub(crate) proof fn lemma_found(self, line: Seq<Seq<char>>)
        requires
            self.wf(),
        ensures
            self.search(line) matches Some(id) ==> {
                &&& holds_key(self.clusters, id)
                &&& self.cluster(id).template.len() == line.len()
                &&& self.search_path(line) is Some
            },
    {
        let ids = self.candidates(line);
        lemma_search_walk(
            self.tree,
            line,
            walk_length(line.len(), self.settings.max_node_depth as nat),
        );
        self.lemma_best(ids, line, ids.len());
        if let Some(id) = self.search(line) {
            let i = choose|i: int| 0 <= i < ids.len() && #[trigger] ids[i] == id;
            let p = self.search_path(line)->0;
            assert(self.tree.contains_key(p));
            assert(holds_key(self.clusters, self.tree[p][i]));
        }
    }

    /// A search leaves the clusters what they are.
    pub(crate) proof fn lemma_after_search(self, line: Seq<Seq<char>>)
        requires
            self.wf(),
        ensures
            self.after_search(line).wf(),
            forall|id: usize|
                holds_key(self.after_search(line).clusters, id) <==> holds_key(self.clusters, id),
            forall|id: usize| #[trigger]
                holds_key(self.clusters, id) ==> self.after_search(line).cluster(id)
                    == self.cluster(id),
    {
        let ids = self.candidates(line);
        let after = self.after_search(line);
        lemma_touched(self.clusters, ids, ids.len());
        assert forall|id: usize| #[trigger] holds_key(after.clusters, id) implies holds_key(
            self.clusters,
            id,
        ) && after.cluster(id) == self.cluster(id) by {}
    }

    /// One more line in a cluster of its length keeps the classifier in order.
    pub(crate) proof fn lemma_with_line(self, id: usize, line: Seq<Seq<char>>)
        requires
            self.wf(),
            holds_key(self.clusters, id),
            self.cluster(id).template.len() == line.len(),
        ensures
            self.with_line(id, line).wf(),
    {
        let after = self.with_line(id, line);
        let front = promoted(self.clusters, id);
        lemma_promoted(self.clusters, id);
        lemma_front_changed(front, after.clusters[0].1);
        assert(keys(after.clusters) == keys(front));
        assert forall|k: usize| #[trigger] holds_key(after.clusters, k) implies 1 <= k
            <= after.clusters_count && after.cluster(k).local_id == k && holds_key(self.clusters, k)
            && after.cluster(k).template.len() == self.cluster(k).template.len() by {
            assert(holds_key(front, k));
            assert(holds_key(self.clusters, k));
        }
    }

    /// A new cluster keeps the classifier in order.
    pub(crate) proof fn lemma_with_cluster(self, template: Seq<TokenView>)
        requires
            self.wf(),
            self.clusters_count < usize::MAX,
            self.insert_path(template) is Some,
        ensures
            self.with_cluster(template).wf(),
    {
        let after = self.with_cluster(template);
        let id = (self.clusters_count + 1) as usize;
        let node = self.insert_path(template)->0;
        lemma_insert_walk(
            self.tree,
            template,
            self.settings,
            walk_length(template.len(), self.settings.max_node_depth as nat),
        );
        let cluster = ClusterView { template, size: 1, local_id: id };
        lemma_way_has_parents(self.tree, node);
        assert(node.steps =~= node.steps.take(node.steps.len() as int));
        assert forall|p: Path| #[trigger]
            after.tree.contains_key(p) <==> with_way(self.tree, node).contains_key(p) by {}
        lemma_inserted(self.clusters, id, cluster, self.capacity);
        assert forall|p: Path, i: int| #[trigger]
            after.tree.contains_key(p) && 0 <= i < after.tree[p].len() implies 1
            <= #[trigger] after.tree[p][i] <= after.clusters_count && (holds_key(
            after.clusters,
            after.tree[p][i],
        ) ==> after.cluster(after.tree[p][i]).template.len() == p.count) by {
            let x = after.tree[p][i];
            let known = with_way(self.tree, node);
            assert(known.contains_key(p));
            if p == node && i == after.tree[p].len() - 1 {
                assert(x == id);
            } else {
                if p == node && node.count > 0 {
                    lemma_filtered(known[node], self.alive(), i);
                } else {
                    assert(known[p][i] == x);
                }
                let j = known[p].index_of(x);
                assert(known[p].contains(x));
                assert(self.tree.contains_key(p) && self.tree[p][j] == x);
            }
        }
    }

    /// One more line keeps the classifier in order.
    pub(crate) proof fn lemma_added(self, line: Seq<Seq<char>>)
        requires
            self.wf(),
            self.accepts(line),
        ensures
            self.added(line).wf(),
    {
        self.lemma_after_search(line);
        self.lemma_found(line);
        let seen = self.after_search(line);
        match self.search(line) {
            Some(id) => {
                seen.lemma_with_line(id, line);
            },
            None => {
                seen.lemma_with_cluster(self.fresh(line));
            },
        }
    }
}

}
