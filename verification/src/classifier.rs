//! The classifier: which cluster each log line belongs to.
use crate::cache::{
    cache_capacity, cache_entries, contains, entry_views, get, get_mut, get_or_insert, holds_key,
    lemma_entry_views, lemma_views_front_changed, lemma_views_inserted, new_cache, peek, promoted,
    MAX_CAPACITY,
};
use crate::cluster::{token_views, LogCluster};
use crate::model::{
    child_limit, has_parents, insert_walk, lemma_search_walk, lemma_way_to_child,
    lemma_way_to_root, next_step, places, search_walk, touched, walk_length, with_way, Best,
    ClassifierView, Settings,
};
use crate::similarity::SimThreshold;
use crate::text::{texts, tokenize, words, Tokens};
use crate::token::{Token, TokenView};
use crate::tree::{children, Path, PrefixTree};
use lru::LruCache;
use vstd::prelude::*;

verus! {

/// Whether a line has made a template or changed one.
#[derive(Clone, Copy, Debug, PartialEq, Eq, Structural)]
pub enum LogClusterStatus {
    ChangedTemplate,
    Unchanged,
}

/// Puts log lines into clusters. The first tokens of a line lead down a prefix tree to a node with
/// clusters, and the most similar of those takes the line where it is similar enough.
pub struct LogPatternClassifier {
    root_node: PrefixTree,
    id_to_clusters: LruCache<usize, LogCluster>,
    clusters_count: usize,
    sim_threshold: SimThreshold,
    max_node_depth: usize,
    max_children: usize,
    parameterize_numeric_tokens: bool,
    extra_delimiters: Vec<char>,
}

impl View for LogPatternClassifier {
    type V = ClassifierView;

    closed spec fn view(&self) -> ClassifierView {
        ClassifierView {
            tree: self.root_node@,
            clusters: entry_views(cache_entries(self.id_to_clusters)),
            capacity: cache_capacity(self.id_to_clusters),
            clusters_count: self.clusters_count,
            settings: Settings {
                sim_threshold: self.sim_threshold,
                max_node_depth: self.max_node_depth,
                max_children: self.max_children,
                parameterize_numeric_tokens: self.parameterize_numeric_tokens,
                extra_delimiters: self.extra_delimiters@,
            },
        }
    }
}

/// How many steps down from its root a line goes.
fn steps_down(count: usize, max_node_depth: usize) -> (r: usize)
    ensures
        r == walk_length(count as nat, max_node_depth as nat),
{
    if count == 0 || max_node_depth == 0 {
        0
    } else if count < max_node_depth {
        count - 1
    } else {
        max_node_depth - 1
    }
}

/// How many children a node at some depth may have.
fn limit_at(max_children: usize, depth: usize) -> (r: usize)
    requires
        depth > 0,
    ensures
        r == child_limit(max_children as nat, depth as nat),
{
    if depth > 1 {
        let share: usize = max_children / 2 / depth;
        proof {
            vstd::arithmetic::div_mod::lemma_div_denominator(
                max_children as int,
                2,
                depth as int,
            );
        }
        if max_children < 2 {
            max_children
        } else if share < 2 {
            2
        } else {
            share
        }
    } else {
        max_children
    }
}

/// A walk that is stuck stays so.
proof fn lemma_stuck(
    tree: Map<Path, Seq<usize>>,
    template: Seq<TokenView>,
    s: Settings,
    j: nat,
    k: nat,
)
    requires
        insert_walk(tree, template, s, j) is None,
        j <= k,
    ensures
        insert_walk(tree, template, s, k) is None,
    decreases k,
{
    if j < k {
        lemma_stuck(tree, template, s, j, (k - 1) as nat);
    }
}

/// The node that the first tokens of a template lead to, each by the child of the wildcard or by
/// its own.
spec fn taken(template: Seq<TokenView>, open_steps: Seq<bool>) -> Path {
    Path {
        count: template.len(),
        steps: Seq::new(
            open_steps.len(),
            |i: int|
                if open_steps[i] {
                    TokenView::Wildcard
                } else {
                    template[i]
                },
        ),
    }
}

impl LogPatternClassifier {
    /// The links of the tree are in order.
    pub closed spec fn links_wf(&self) -> bool {
        self.root_node.wf()
    }

    /// What holds of every classifier.
    pub open spec fn wf(&self) -> bool {
        self.links_wf() && self@.wf()
    }

    /// No node of the tree has infinitely many children.
    pub proof fn law_children_are_finite(&self)
        requires
            self.links_wf(),
        ensures
            forall|p: Path| #[trigger] children(self@.tree, p).finite(),
    {
        assert forall|p: Path| #[trigger] children(self@.tree, p).finite() by {
            self.root_node.lemma_children_are_finite(p);
        }
    }

    /// A classifier that remembers up to so many clusters, with the usual settings.
    pub fn new(max_clusters: usize) -> (r: Self)
        requires
            0 < max_clusters <= MAX_CAPACITY,
        ensures
            r.wf(),
            r@ == ClassifierView::initial(max_clusters as nat),
    {
        let r = LogPatternClassifier {
            root_node: PrefixTree::new(),
            id_to_clusters: new_cache(max_clusters),
            clusters_count: 0,
            // 0.4
            sim_threshold: SimThreshold::from_bits(0x3FD9_9999_9999_999A),
            max_node_depth: 8,
            max_children: 100,
            parameterize_numeric_tokens: true,
            extra_delimiters: Vec::new(),
        };
        assert(r@.clusters =~= Seq::empty());
        r
    }

    /// The classifier with another similarity threshold.
    pub fn sim_threshold(self, value: SimThreshold) -> (r: Self)
        ensures
            self.wf() ==> r.wf(),
            r@ == self@.with_sim_threshold(value),
    {
        LogPatternClassifier { sim_threshold: value, ..self }
    }

    /// The classifier with another greatest depth of the tree.
    pub fn max_node_depth(self, value: usize) -> (r: Self)
        ensures
            self.wf() ==> r.wf(),
            r@ == self@.with_max_node_depth(value),
    {
        LogPatternClassifier { max_node_depth: value, ..self }
    }

    /// The classifier with another greatest number of children of a node.
    pub fn max_children(self, value: usize) -> (r: Self)
        ensures
            self.wf() ==> r.wf(),
            r@ == self@.with_max_children(value),
    {
        LogPatternClassifier { max_children: value, ..self }
    }

    /// The classifier that takes tokens with numbers for parameters, or does not.
    pub fn parameterize_numeric_tokens(self, value: bool) -> (r: Self)
        ensures
            self.wf() ==> r.wf(),
            r@ == self@.with_parameterize_numeric_tokens(value),
    {
        LogPatternClassifier { parameterize_numeric_tokens: value, ..self }
    }

    /// The classifier with other characters that separate tokens, besides white space.
    pub fn extra_delimiters(self, value: Vec<char>) -> (r: Self)
        ensures
            self.wf() ==> r.wf(),
            r@ == self@.with_extra_delimiters(value@),
    {
        LogPatternClassifier { extra_delimiters: value, ..self }
    }

    /// The way of a new template from its root to the node that it is filed at: for each step,
    /// whether it goes to the child of the wildcard and not to that of the token. There is none
    /// where a node on the way has no room.
    fn route(&self, template: &Vec<Token>) -> (r: Option<Vec<bool>>)
        requires
            self.links_wf(),
        ensures
            r is Some <==> self@.insert_path(token_views(template@)) is Some,
            r matches Some(open_steps) ==> self@.insert_path(token_views(template@)) == Some(
                taken(token_views(template@), open_steps@),
            ),
            r matches Some(open_steps) ==> open_steps@.len() <= template@.len(),
    {
        let ghost v = self@;
        let ghost tokens = token_views(template@);
        let token_count: usize = template.len();
        let mut open_steps: Vec<bool> = Vec::new();
        let mut curr_node: Option<usize> = self.root_node.root(token_count);
        let steps: usize = steps_down(token_count, self.max_node_depth);
        proof {
            self.root_node.lemma_parents();
            assert(taken(tokens, open_steps@) =~= Path::root(tokens.len()));
        }
        let mut i: usize = 0;
        while i < steps
            invariant
                v == self@,
                tokens == token_views(template@),
                steps == walk_length(tokens.len(), v.settings.max_node_depth as nat),
                i <= steps,
                self.links_wf(),
                has_parents(v.tree),
                open_steps@.len() == i,
                curr_node is Some <==> v.tree.contains_key(taken(tokens, open_steps@)),
                curr_node matches Some(node) ==> self.root_node.has_node(node)
                    && self.root_node.path(node) == taken(tokens, open_steps@),
                insert_walk(v.tree, tokens, v.settings, i as nat) == Some(
                    taken(tokens, open_steps@),
                ),
            decreases steps - i,
        {
            let token = &template[i];
            assert(token@ == tokens[i as int]);
            let max_children: usize = limit_at(self.max_children, i + 1);
            let ghost path = taken(tokens, open_steps@);
            let ghost step = next_step(v.tree, path, token@, v.settings);
            let (own, open, count): (Option<usize>, Option<usize>, u128) = match curr_node {
                Some(node) => (
                    self.root_node.child(node, token),
                    self.root_node.wildcard_child(node),
                    self.root_node.child_count(node),
                ),
                None => {
                    assert(children(v.tree, path) =~= Set::empty());
                    (None, None, 0)
                },
            };
            let to_wildcard: bool = if own.is_some() {
                false
            } else if self.parameterize_numeric_tokens && token.has_numbers() {
                true
            } else if open.is_some() {
                count >= max_children as u128
            } else if count < max_children as u128 {
                count + 1 == max_children as u128
            } else {
                proof {
                    lemma_stuck(v.tree, tokens, v.settings, (i + 1) as nat, steps as nat);
                }
                return None;
            };
            curr_node = if to_wildcard {
                open
            } else {
                own
            };
            open_steps.push(to_wildcard);
            proof {
                assert(taken(tokens, open_steps@) =~= path.child(step->0));
            }
            i += 1;
        }
        Some(open_steps)
    }

    /// Files a cluster in the tree. Clusters at its node that are not remembered any more are
    /// dropped.
    pub fn add_seq_to_prefix_tree(&mut self, cluster: &LogCluster)
        requires
            old(self).links_wf(),
            old(self)@.insert_path(cluster@.template) is Some,
        ensures
            final(self).links_wf(),
            final(self)@ == (ClassifierView {
                tree: old(self)@.filed(
                    old(self)@.insert_path(cluster@.template)->0,
                    cluster@.local_id,
                ),
                ..old(self)@
            }),
    {
        let template = cluster.template_tokens();
        let ghost v = self@;
        let ghost tokens = cluster@.template;
        let token_count: usize = template.len();
        let open_steps = self.route(template).unwrap();
        let mut curr_node: usize = self.root_node.root_or_insert(token_count);
        proof {
            lemma_way_to_root(v.tree, tokens.len());
            assert(taken(tokens, open_steps@.take(0)) =~= Path::root(tokens.len()));
        }
        let mut i: usize = 0;
        while i < open_steps.len()
            invariant
                i <= open_steps@.len() <= template@.len(),
                token_count == tokens.len(),
                token_views(template@) == tokens,
                self.root_node.wf(),
                self.root_node.has_node(curr_node),
                self.root_node.path(curr_node) == taken(tokens, open_steps@.take(i as int)),
                self@ == (ClassifierView {
                    tree: with_way(v.tree, taken(tokens, open_steps@.take(i as int))),
                    ..v
                }),
            decreases open_steps@.len() - i,
        {
            let ghost path = taken(tokens, open_steps@.take(i as int));
            let token = if open_steps[i] {
                &Token::Wildcard
            } else {
                &template[i]
            };
            proof {
                lemma_way_to_child(v.tree, path, token@);
                assert(taken(tokens, open_steps@.take(i + 1)) =~= path.child(token@));
            }
            curr_node = self.root_node.child_or_insert(curr_node, token);
            i += 1;
        }
        assert(open_steps@.take(i as int) =~= open_steps@);
        let id = cluster.local_id();
        if token_count == 0 {
            self.root_node.push_cluster_id(curr_node, id);
            return;
        }
        let ghost alive = v.alive();
        let mut new_cluster_ids: Vec<usize> = Vec::new();
        let cluster_ids = self.root_node.cluster_ids(curr_node);
        let mut j: usize = 0;
        assert(cluster_ids@.take(0).filter(alive) =~= seq![]) by {
            reveal(Seq::filter);
        }
        while j < cluster_ids.len()
            invariant
                j <= cluster_ids@.len(),
                alive == v.alive(),
                v.clusters == entry_views(cache_entries(self.id_to_clusters)),
                new_cluster_ids@ == cluster_ids@.take(j as int).filter(alive),
            decreases cluster_ids@.len() - j,
        {
            let cluster_id: usize = cluster_ids[j];
            proof {
                reveal(Seq::filter);
                assert(cluster_ids@.take(j + 1).drop_last() =~= cluster_ids@.take(j as int));
                lemma_entry_views(cache_entries(self.id_to_clusters), cluster_id);
            }
            if contains(&self.id_to_clusters, cluster_id) {
                new_cluster_ids.push(cluster_id);
            }
            j += 1;
        }
        assert(cluster_ids@.take(j as int) =~= cluster_ids@);
        new_cluster_ids.push(id);
        self.root_node.set_cluster_ids(curr_node, new_cluster_ids);
    }

    /// The node where the clusters are that a line may belong to.
    fn find_node(&self, tokens: &Tokens) -> (r: Option<usize>)
        requires
            self.links_wf(),
        ensures
            r is Some <==> self@.search_path(texts(tokens@)) is Some,
            r matches Some(node) ==> self.root_node.has_node(node) && self.root_node.path(node)
                == self@.search_path(texts(tokens@))->0,
    {
        let ghost line = texts(tokens@);
        let token_count: usize = tokens.len();
        let mut curr_node: Option<usize> = self.root_node.root(token_count);
        let steps: usize = steps_down(token_count, self.max_node_depth);
        let mut i: usize = 0;
        while i < steps
            invariant
                steps == walk_length(line.len(), self.max_node_depth as nat),
                i <= steps,
                line == texts(tokens@),
                self.root_node.wf(),
                curr_node is Some <==> search_walk(self.root_node@, line, i as nat) is Some,
                curr_node matches Some(node) ==> self.root_node.has_node(node)
                    && self.root_node.path(node) == search_walk(
                    self.root_node@,
                    line,
                    i as nat,
                )->0,
            decreases steps - i,
        {
            if let Some(node) = curr_node {
                assert(line[i as int] == tokens@[i as int]@);
                curr_node = self.root_node.value_child(node, tokens[i]);
                if curr_node.is_none() {
                    curr_node = self.root_node.wildcard_child(node);
                }
            }
            i += 1;
        }
        curr_node
    }

    /// The best of the clusters at the node of a line, if it is similar enough.
    fn best_at(&self, node: usize, tokens: &Tokens) -> (r: Option<usize>)
        requires
            self.wf(),
            self.root_node.has_node(node),
            self@.search_path(texts(tokens@)) == Some(self.root_node.path(node)),
        ensures
            r == self@.search(texts(tokens@)),
    {
        let ghost v = self@;
        let ghost line = texts(tokens@);
        proof {
            lemma_search_walk(
                v.tree,
                line,
                walk_length(line.len(), v.settings.max_node_depth as nat),
            );
        }
        let mut max_sim: usize = 0;
        let mut max_param_count: usize = 0;
        let mut max_cluster_id: Option<usize> = None;
        let cluster_ids = self.root_node.cluster_ids(node);
        let ghost ids = cluster_ids@;
        let mut i: usize = 0;
        while i < cluster_ids.len()
            invariant
                i <= cluster_ids@.len(),
                ids == cluster_ids@,
                v == self@,
                ids == v.candidates(line),
                v.search_path(line) is Some,
                v.tree.contains_key(v.search_path(line)->0),
                v.search_path(line)->0.count == line.len(),
                v.wf(),
                line == texts(tokens@),
                v.best(ids, line, i as nat) == (Best {
                    matched: max_sim as nat,
                    wildcards: max_param_count as nat,
                    id: max_cluster_id,
                }),
                max_sim <= places(line),
            decreases cluster_ids@.len() - i,
        {
            let cluster_id: usize = cluster_ids[i];
            proof {
                lemma_entry_views(cache_entries(self.id_to_clusters), cluster_id);
                assert(v.tree[v.search_path(line)->0][i as int] == cluster_id);
            }
            if let Some(cluster) = peek(&self.id_to_clusters, cluster_id) {
                let (sim, param_count) = cluster.seq_dist(tokens);
                if sim.matched > max_sim || (sim.matched == max_sim && param_count
                    > max_param_count) {
                    max_sim = sim.matched;
                    max_param_count = param_count;
                    max_cluster_id = Some(cluster_id);
                }
            }
            i += 1;
        }
        let total: usize = if tokens.len() == 0 {
            1
        } else {
            tokens.len()
        };
        if self.sim_threshold.admits(max_sim, total) {
            max_cluster_id
        } else {
            None
        }
    }

    /// Uses the clusters at a node, one after the other.
    fn use_all_at(&mut self, node: usize)
        requires
            old(self).links_wf(),
            old(self).root_node.has_node(node),
        ensures
            final(self).links_wf(),
            final(self)@ == (ClassifierView {
                clusters: touched(
                    old(self)@.clusters,
                    old(self)@.tree[old(self).root_node.path(node)],
                    old(self)@.tree[old(self).root_node.path(node)].len(),
                ),
                ..old(self)@
            }),
    {
        let ghost v = self@;
        let cluster_ids = self.root_node.cluster_ids(node);
        let ghost ids = cluster_ids@;
        let mut i: usize = 0;
        while i < cluster_ids.len()
            invariant
                i <= cluster_ids@.len(),
                ids == cluster_ids@,
                self.links_wf(),
                self@ == (ClassifierView { clusters: touched(v.clusters, ids, i as nat), ..v }),
            decreases cluster_ids@.len() - i,
        {
            let cluster_id: usize = cluster_ids[i];
            proof {
                lemma_entry_views(cache_entries(self.id_to_clusters), cluster_id);
            }
            let _ = get(&mut self.id_to_clusters, cluster_id);
            i += 1;
        }
    }

    /// The cluster that a line belongs to, if any. The clusters at the node of the line have been
    /// used then.
    pub fn tree_search(&mut self, tokens: &Tokens) -> (r: Option<usize>)
        requires
            old(self).wf(),
        ensures
            r == old(self)@.search(texts(tokens@)),
            final(self)@ == old(self)@.after_search(texts(tokens@)),
            final(self).wf(),
    {
        let ghost v = self@;
        let ghost line = texts(tokens@);
        proof {
            v.lemma_after_search(line);
            if v.search_path(line) is None {
                assert(v.candidates(line) =~= seq![]);
                assert(v.best(v.candidates(line), line, 0).id is None);
                assert(touched(v.clusters, v.candidates(line), 0) == v.clusters);
            }
        }
        match self.find_node(tokens) {
            None => None,
            Some(node) => {
                let found = self.best_at(node, tokens);
                self.use_all_at(node);
                found
            },
        }
    }

    /// The cluster that a line belongs to, if any.
    fn find(&self, tokens: &Tokens) -> (r: Option<usize>)
        requires
            self.wf(),
        ensures
            r == self@.search(texts(tokens@)),
    {
        match self.find_node(tokens) {
            None => {
                proof {
                    let ids = self@.candidates(texts(tokens@));
                    assert(self@.best(ids, texts(tokens@), 0).id is None);
                }
                None
            },
            Some(node) => self.best_at(node, tokens),
        }
    }

    /// Whether a line can be taken.
    pub fn accepts(&self, line: &str) -> (r: bool)
        requires
            self.wf(),
        ensures
            r == self@.accepts(words(line@, self@.settings.extra_delimiters)),
    {
        let tokens = tokenize(line, &self.extra_delimiters);
        proof {
            self@.lemma_found(texts(tokens@));
        }
        match self.find(&tokens) {
            Some(id) => {
                proof {
                    lemma_entry_views(cache_entries(self.id_to_clusters), id);
                }
                match peek(&self.id_to_clusters, id) {
                    Some(cluster) => cluster.cluster_size() < usize::MAX,
                    None => false,
                }
            },
            None => {
                let fresh = LogCluster::new(0, self.parameterize_numeric_tokens, tokens);
                self.clusters_count < usize::MAX && self.route(fresh.template_tokens()).is_some()
            },
        }
    }

    /// Adds a line: to the cluster that it belongs to, or to a new one. Gives the cluster, and says
    /// whether its template is new or changed.
    pub fn add_log_message(&mut self, line: &str) -> (r: (&LogCluster, LogClusterStatus))
        requires
            old(self).wf(),
            old(self)@.accepts(words(line@, old(self)@.settings.extra_delimiters)),
        ensures
            final(self).wf(),
            final(self)@ == old(self)@.added(words(line@, old(self)@.settings.extra_delimiters)),
            r.0@ == final(self)@.clusters[0].1,
            r.1 == if old(self)@.changes_template(
                words(line@, old(self)@.settings.extra_delimiters),
            ) {
                LogClusterStatus::ChangedTemplate
            } else {
                LogClusterStatus::Unchanged
            },
    {
        let ghost v = self@;
        let tokens = tokenize(line, &self.extra_delimiters);
        let ghost text = texts(tokens@);
        let ghost seen = v.after_search(text);
        proof {
            v.lemma_found(text);
            v.lemma_after_search(text);
            v.lemma_added(text);
        }
        match self.tree_search(&tokens) {
            None => {
                self.clusters_count += 1;
                let cluster_id: usize = self.clusters_count;
                let cluster = LogCluster::new(
                    cluster_id,
                    self.parameterize_numeric_tokens,
                    tokens,
                );
                self.add_seq_to_prefix_tree(&cluster);
                proof {
                    let entries = cache_entries(self.id_to_clusters);
                    lemma_entry_views(entries, cluster_id);
                    lemma_views_inserted(entries, cluster_id, cluster, seen.capacity);
                    assert(!holds_key(seen.clusters, cluster_id));
                }
                (
                    get_or_insert(&mut self.id_to_clusters, cluster_id, cluster),
                    LogClusterStatus::ChangedTemplate,
                )
            },
            Some(cluster_id) => {
                proof {
                    let entries = cache_entries(self.id_to_clusters);
                    lemma_entry_views(entries, cluster_id);
                    assert(holds_key(seen.clusters, cluster_id));
                    assert forall|c: LogCluster| #[trigger]
                        entry_views(promoted(entries, cluster_id).update(0, (cluster_id, c)))
                            == promoted(seen.clusters, cluster_id).update(0, (cluster_id, c@)) by {
                        lemma_views_front_changed(entries, cluster_id, c);
                    }
                }
                let cluster = get_mut(&mut self.id_to_clusters, cluster_id).unwrap();
                cluster.count_line();
                let updated = cluster.update(&tokens);
                (
                    cluster,
                    if updated {
                        LogClusterStatus::ChangedTemplate
                    } else {
                        LogClusterStatus::Unchanged
                    },
                )
            },
        }
    }
}

}
