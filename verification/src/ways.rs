//! The ways of lines through the tree: how deep they go, which child they take, and what that means
//! for the clusters that lines are in.
use crate::cache::{holds_key, lemma_value_at};
use crate::cluster::{fresh_template, law_same_words_match_in_full};
use crate::laws::{
    is_fixed, law_found_line_is_found_again, law_line_is_covered_by_its_cluster,
    law_new_line_is_found_again, lemma_nodes_after, lemma_walk_goes_on,
};
use crate::model::{
    child_limit, has_parents, insert_walk, is_on_way, lemma_insert_walk, next_step, search_walk,
    walk_length, with_way, ClassifierView,
};
use crate::similarity::law_full_match_reaches;
use crate::text::has_numeric;
use crate::token::TokenView;
use crate::tree::{children, Path, TreeView};
use vstd::math::min;
use vstd::prelude::*;

verus! {

/// A line goes down one step less than it has tokens, or than the greatest depth where that is
/// less; neither a search nor the filing of its template stops before that.
pub proof fn law_lines_go_as_deep_as_they_may(
    v: ClassifierView,
    line: Seq<Seq<char>>,
    template: Seq<TokenView>,
)
    requires
        v.settings.max_node_depth > 0,
    ensures
        line.len() > 0 ==> (v.search_path(line) matches Some(p) ==> p.count == line.len()
            && p.steps.len() == min(line.len() as int, v.settings.max_node_depth as int) - 1),
        template.len() > 0 ==> (v.insert_path(template) matches Some(p) ==> p.count
            == template.len() && p.steps.len() == min(
            template.len() as int,
            v.settings.max_node_depth as int,
        ) - 1),
        template.len() == 0 ==> v.insert_path(template) == Some(
            (Path { count: 0, steps: seq![] }),
        ),
{
    crate::model::lemma_search_walk(
        v.tree,
        line,
        walk_length(line.len(), v.settings.max_node_depth as nat),
    );
    lemma_insert_walk(
        v.tree,
        template,
        v.settings,
        walk_length(template.len(), v.settings.max_node_depth as nat),
    );
}

/// Without a depth every line stays at its root.
pub proof fn law_without_a_depth_lines_stay_at_their_roots(
    v: ClassifierView,
    line: Seq<Seq<char>>,
    template: Seq<TokenView>,
)
    requires
        v.settings.max_node_depth == 0,
    ensures
        v.insert_path(template) == Some((Path { count: template.len(), steps: seq![] })),
        v.search_path(line) matches Some(p) ==> p == (Path { count: line.len(), steps: seq![] }),
{
}

/// Whether a node is where the first `k` words of a line lead: each to its own child, or, where the
/// tree has none, to that of the wildcard.
pub open spec fn is_led_to(tree: TreeView, line: Seq<Seq<char>>, k: nat, p: Path) -> bool {
    &&& p.count == line.len()
    &&& p.steps.len() == k
    &&& tree.contains_key(p)
    &&& forall|i: int|
        0 <= i < k ==> (#[trigger] p.steps[i] == TokenView::Value(line[i]) || (p.steps[i]
            == TokenView::Wildcard && !tree.contains_key(
            (Path { count: p.count, steps: p.steps.take(i).push(TokenView::Value(line[i])) }),
        )))
}

/// A search ends at the one node that the words lead to, if there is one.
proof fn lemma_search_is_led(tree: TreeView, line: Seq<Seq<char>>, k: nat, p: Path)
    requires
        has_parents(tree),
        k <= line.len(),
    ensures
        search_walk(tree, line, k) == Some(p) <==> is_led_to(tree, line, k, p),
    decreases k,
{
    let root = Path::root(line.len());
    if k == 0 {
        if is_led_to(tree, line, k, p) {
            assert(p =~= root);
        }
    } else {
        let parent = p.parent();
        let word = TokenView::Value(line[k - 1]);
        if search_walk(tree, line, k) == Some(p) {
            let before = search_walk(tree, line, (k - 1) as nat)->0;
            assert(p.parent() =~= before);
            lemma_search_is_led(tree, line, (k - 1) as nat, before);
            assert forall|i: int| 0 <= i < k implies (#[trigger] p.steps[i] == TokenView::Value(
                line[i],
            ) || (p.steps[i] == TokenView::Wildcard && !tree.contains_key(
                (Path { count: p.count, steps: p.steps.take(i).push(TokenView::Value(line[i])) }),
            ))) by {
                if i < k - 1 {
                    assert(p.steps[i] == before.steps[i]);
                    assert(p.steps.take(i) =~= before.steps.take(i));
                } else {
                    assert(p.steps.take(i) =~= before.steps);
                    assert(before.child(word) =~= (Path {
                        count: p.count,
                        steps: p.steps.take(i).push(word),
                    }));
                }
            }
        }
        if is_led_to(tree, line, k, p) {
            let last = p.steps[k - 1];
            assert(parent.child(last) =~= p);
            assert(tree.contains_key(parent.child(last)));
            assert forall|i: int| 0 <= i < k - 1 implies (#[trigger] parent.steps[i]
                == TokenView::Value(line[i]) || (parent.steps[i] == TokenView::Wildcard
                && !tree.contains_key(
                (Path {
                    count: parent.count,
                    steps: parent.steps.take(i).push(TokenView::Value(line[i])),
                }),
            ))) by {
                assert(parent.steps[i] == p.steps[i]);
                assert(parent.steps.take(i) =~= p.steps.take(i));
            }
            lemma_search_is_led(tree, line, (k - 1) as nat, parent);
            assert(p.steps.take(k - 1) =~= parent.steps);
            assert(parent.child(word) =~= (Path {
                count: p.count,
                steps: p.steps.take(k - 1).push(word),
            }));
        }
    }
}

/// A search ends at a node exactly where the node is as deep as the line may go and each step to it
/// is the line's own word, or the wildcard where the tree has no child for the word.
pub proof fn law_search_takes_its_own_words_first(
    v: ClassifierView,
    line: Seq<Seq<char>>,
    p: Path,
)
    requires
        has_parents(v.tree),
    ensures
        v.search_path(line) == Some(p) <==> {
            &&& p.count == line.len()
            &&& p.steps.len() == if line.len() == 0 || v.settings.max_node_depth == 0 {
                0
            } else {
                min(line.len() as int, v.settings.max_node_depth as int) - 1
            }
            &&& v.tree.contains_key(p)
            &&& forall|i: int|
                0 <= i < p.steps.len() ==> (#[trigger] p.steps[i] == TokenView::Value(line[i]) || (
                p.steps[i] == TokenView::Wildcard && !v.tree.contains_key(
                    (Path {
                        count: p.count,
                        steps: p.steps.take(i).push(TokenView::Value(line[i])),
                    }),
                )))
        },
{
    lemma_search_is_led(
        v.tree,
        line,
        walk_length(line.len(), v.settings.max_node_depth as nat),
        p,
    );
}

/// How many children a node may have: as many as the setting says at a root. Below it is the
/// setting divided by twice the depth, rounded down, and at least two, but no more than the
/// setting.
pub proof fn law_limit_shrinks_with_the_depth(max_children: nat, depth: nat)
    ensures
        depth <= 1 ==> child_limit(max_children, depth) == max_children,
        max_children < 2 ==> child_limit(max_children, depth) == max_children,
        depth > 1 && max_children >= 2 ==> {
            let limit = child_limit(max_children, depth);
            &&& limit >= 2
            &&& limit > 2 ==> 2 * depth * limit <= max_children
            &&& 2 * depth * (limit + 1) > max_children
        },
{
    if depth > 1 && max_children >= 2 {
        let d = (2 * depth) as int;
        let share = max_children as int / d;
        vstd::arithmetic::div_mod::lemma_fundamental_div_mod(max_children as int, d);
        vstd::arithmetic::div_mod::lemma_mod_bound(max_children as int, d);
        let r = max_children as int % d;
        assert(d * share + r == max_children && 0 <= r < d);
        assert(d * (share + 1) == d * share + d) by (nonlinear_arith);
        let limit = child_limit(max_children, depth);
        if limit != share {
            assert(d * (limit + 1) >= d * (share + 1)) by (nonlinear_arith)
                requires
                    limit >= share,
                    d > 0,
            ;
        }
    }
}

/// Each step of a new template goes to its own child or to that of the wildcard: to its own where
/// there is one; to the wildcard's where numbers are parameters and the token holds one; else to its
/// own exactly where, with it, there are fewer children than there may be, or as many and the
/// wildcard's among them.
pub proof fn law_steps_of_a_new_template(
    v: ClassifierView,
    template: Seq<TokenView>,
    p: Path,
    i: int,
)
    requires
        v.insert_path(template) == Some(p),
        0 <= i < p.steps.len(),
    ensures
        p.count == template.len(),
        i < template.len(),
        ({
            let here = Path { count: template.len(), steps: p.steps.take(i) };
            let own = v.tree.contains_key(
                (Path { count: template.len(), steps: p.steps.take(i).push(template[i]) }),
            );
            let open = v.tree.contains_key(
                (Path { count: template.len(), steps: p.steps.take(i).push(TokenView::Wildcard) }),
            );
            let numeric = template[i] matches TokenView::Value(w) && has_numeric(w);
            let count = children(v.tree, here).len();
            let limit = child_limit(v.settings.max_children as nat, (i + 1) as nat);
            &&& p.steps[i] == template[i] || p.steps[i] == TokenView::Wildcard
            &&& own ==> p.steps[i] == template[i]
            &&& !own && v.settings.parameterize_numeric_tokens && numeric ==> p.steps[i]
                == TokenView::Wildcard
            &&& !own && !(v.settings.parameterize_numeric_tokens && numeric) && template[i]
                != TokenView::Wildcard ==> (p.steps[i] == template[i] <==> if open {
                count + 1 <= limit
            } else {
                count + 2 <= limit
            })
            &&& !own && !open && !(v.settings.parameterize_numeric_tokens && numeric) ==> count
                < limit
        }),
{
    let s = v.settings;
    let k = walk_length(template.len(), s.max_node_depth as nat);
    lemma_insert_walk(v.tree, template, s, k);
    lemma_walk_goes_on(v.tree, template, s, i as nat, k);
    lemma_walk_goes_on(v.tree, template, s, (i + 1) as nat, k);
    lemma_insert_walk(v.tree, template, s, i as nat);
    lemma_insert_walk(v.tree, template, s, (i + 1) as nat);
    let here = insert_walk(v.tree, template, s, i as nat)->0;
    let next = insert_walk(v.tree, template, s, (i + 1) as nat)->0;
    assert(here =~= (Path { count: template.len(), steps: p.steps.take(i) }));
    assert(next.steps =~= p.steps.take(i + 1));
    assert(next.steps.last() == p.steps[i]);
    assert(next == here.child(next_step(v.tree, here, template[i], s)->0));
    assert(here.child(template[i]) =~= (Path {
        count: template.len(),
        steps: p.steps.take(i).push(template[i]),
    }));
    assert(here.child(TokenView::Wildcard) =~= (Path {
        count: template.len(),
        steps: p.steps.take(i).push(TokenView::Wildcard),
    }));
}

/// A cluster that is filed changes the clusters at one node: it comes last there, behind those that
/// are still remembered, in their order. The nodes on the way to it are added, without clusters, and
/// every other node stays as it is. At the node of the empty lines nothing is dropped.
pub proof fn law_filing_changes_one_node(v: ClassifierView, node: Path, id: usize, p: Path)
    ensures
        v.filed(node, id).contains_key(p) <==> v.tree.contains_key(p) || (p.count == node.count
            && p.steps.is_prefix_of(node.steps)),
        p != node && v.tree.contains_key(p) ==> v.filed(node, id)[p] == v.tree[p],
        p != node && !v.tree.contains_key(p) && v.filed(node, id).contains_key(p) ==> v.filed(
            node,
            id,
        )[p] == Seq::<usize>::empty(),
        v.filed(node, id)[node].last() == id,
        v.filed(node, id)[node].drop_last() == if !v.tree.contains_key(node) {
            Seq::<usize>::empty()
        } else if node.count == 0 {
            v.tree[node]
        } else {
            v.tree[node].filter(|x: usize| holds_key(v.clusters, x))
        },
{
    let after = v.filed(node, id);
    assert(node.steps =~= node.steps.take(node.steps.len() as int));
    assert(is_on_way(node, node));
    if p.count == node.count && p.steps.is_prefix_of(node.steps) {
        assert(p.steps =~= node.steps.take(p.steps.len() as int));
    }
    if is_on_way(p, node) {
        assert(p.steps =~= node.steps.subrange(0, p.steps.len() as int));
    }
    let kept = if node.count == 0 {
        with_way(v.tree, node)[node]
    } else {
        with_way(v.tree, node)[node].filter(v.alive())
    };
    assert(v.alive() =~= |x: usize| holds_key(v.clusters, x));
    assert(after[node] == kept.push(id));
    assert(kept.push(id).drop_last() =~= kept);
    if !v.tree.contains_key(node) {
        assert(kept =~= seq![]) by {
            reveal(Seq::filter);
        }
    }
}

/// In an empty tree that may branch, a new template without numbers is filed at the node of its own
/// first tokens.
proof fn lemma_first_way(v: ClassifierView, line: Seq<Seq<char>>, p: Path)
    requires
        v.tree == Map::<Path, Seq<usize>>::empty(),
        v.settings.max_children >= 2,
        forall|i: int|
            0 <= i < line.len() ==> !(v.settings.parameterize_numeric_tokens && has_numeric(
                #[trigger] line[i],
            )),
        v.insert_path(v.fresh(line)) == Some(p),
    ensures
        p.steps.len() <= line.len(),
        forall|i: int|
            0 <= i < p.steps.len() ==> #[trigger] p.steps[i] == TokenView::Value(line[i]),
{
    let template = v.fresh(line);
    lemma_insert_walk(
        v.tree,
        template,
        v.settings,
        walk_length(template.len(), v.settings.max_node_depth as nat),
    );
    assert forall|i: int| 0 <= i < p.steps.len() implies #[trigger] p.steps[i]
        == TokenView::Value(line[i]) by {
        law_steps_of_a_new_template(v, template, p, i);
        let here = Path { count: template.len(), steps: p.steps.take(i) };
        assert(children(v.tree, here) =~= Set::empty());
        law_limit_shrinks_with_the_depth(v.settings.max_children as nat, (i + 1) as nat);
        assert(!has_numeric(line[i]) || !v.settings.parameterize_numeric_tokens);
        assert(template[i] == TokenView::Value(line[i]));
    }
}

/// Two lines that differ in one of the words that lead down the tree are not in one cluster: after
/// one of them, as the first line of all, the other one still belongs to none.
pub proof fn law_early_difference_keeps_lines_apart(
    v: ClassifierView,
    a: Seq<Seq<char>>,
    b: Seq<Seq<char>>,
    j: int,
)
    requires
        v.wf(),
        v.tree == Map::<Path, Seq<usize>>::empty(),
        v.settings.max_children >= 2,
        v.accepts(a),
        forall|i: int|
            0 <= i < a.len() ==> !(v.settings.parameterize_numeric_tokens && has_numeric(
                #[trigger] a[i],
            )),
        a.len() == b.len(),
        0 <= j < min(a.len() as int, v.settings.max_node_depth as int) - 1,
        a[j] != b[j],
    ensures
        v.search(a) is None,
        v.added(a).search(b) is None,
{
    let after = v.added(a);
    lemma_no_node_no_cluster(v, a);
    let p = v.insert_path(v.fresh(a))->0;
    v.lemma_added(a);
    lemma_first_way(v, a, p);
    law_lines_go_as_deep_as_they_may(v, a, v.fresh(a));
    lemma_nodes_after(v, a);
    if after.search_path(b) is Some {
        let q = after.search_path(b)->0;
        law_search_takes_its_own_words_first(after, b, q);
        assert(is_on_way(q, p));
        assert(q.steps =~= p.steps);
        assert(p.steps[j] == TokenView::Value(a[j]));
        assert(q.steps[j] == TokenView::Value(b[j]) || q.steps[j] == TokenView::Wildcard);
    }
    lemma_no_node_no_cluster(after, b);
}

/// A line without a node belongs to no cluster.
proof fn lemma_no_node_no_cluster(v: ClassifierView, line: Seq<Seq<char>>)
    ensures
        v.tree == Map::<Path, Seq<usize>>::empty() ==> v.search_path(line) is None,
        v.search_path(line) is None ==> v.search(line) is None,
{
    if v.tree == Map::<Path, Seq<usize>>::empty() {
        crate::model::lemma_search_walk(
            v.tree,
            line,
            walk_length(line.len(), v.settings.max_node_depth as nat),
        );
    }
    if v.search_path(line) is None {
        assert(v.candidates(line) =~= seq![]);
        assert(v.best(v.candidates(line), line, 0).id is None);
    }
}

/// A new line without parameters that comes twice in a row is in one cluster of two lines, whose
/// template is its words, at every threshold up to one.
pub proof fn law_line_that_comes_twice_is_one_cluster(v: ClassifierView, line: Seq<Seq<char>>)
    requires
        v.wf(),
        v.accepts(line),
        v.search(line) is None,
        forall|i: int|
            0 <= i < line.len() ==> !(v.settings.parameterize_numeric_tokens && has_numeric(
                #[trigger] line[i],
            )),
        v.settings.sim_threshold.bits <= 0x3FF0_0000_0000_0000 || 0x8000_0000_0000_0000
            <= v.settings.sim_threshold.bits <= 0xFFF0_0000_0000_0000,
    ensures
        v.added(line).accepts(line),
        v.added(line).added(line).clusters_count == v.clusters_count + 1,
        v.added(line).added(line).clusters[0].0 == v.clusters_count + 1,
        v.added(line).added(line).clusters[0].1.size == 2,
        v.added(line).added(line).clusters[0].1.template == Seq::new(
            line.len(),
            |i: int| TokenView::Value(line[i]),
        ),
{
    let template = v.fresh(line);
    let words = Seq::new(line.len(), |i: int| TokenView::Value(line[i]));
    let id = (v.clusters_count + 1) as usize;
    assert forall|i: int| 0 <= i < line.len() implies #[trigger] template[i]
        == TokenView::Value(line[i]) by {
        assert(!has_numeric(line[i]) || !v.settings.parameterize_numeric_tokens);
    }
    assert(template =~= words);
    assert(is_fixed(v, line));
    if line.len() > 0 {
        law_same_words_match_in_full(template, line);
        law_full_match_reaches(v.settings.sim_threshold, line.len());
    } else {
        law_full_match_reaches(v.settings.sim_threshold, 1);
    }
    law_new_line_is_found_again(v, line);
    let once = v.added(line);
    v.lemma_added(line);
    law_line_is_covered_by_its_cluster(v, line);
    lemma_value_at(once.clusters, 0);
    assert(once.cluster(id) == once.clusters[0].1);
    law_line_is_covered_by_its_cluster(once, line);
}

/// A line that belongs to a cluster joins it, and joins it again when it comes again: the cluster
/// has one line more each time.
pub proof fn law_line_that_comes_again_joins_its_cluster(
    v: ClassifierView,
    line: Seq<Seq<char>>,
    id: usize,
)
    requires
        v.wf(),
        v.search(line) == Some(id),
        v.cluster(id).size < usize::MAX - 1,
    ensures
        v.accepts(line),
        v.added(line).clusters[0].0 == id,
        v.added(line).clusters[0].1.size == v.cluster(id).size + 1,
        v.added(line).accepts(line),
        v.added(line).added(line).clusters[0].0 == id,
        v.added(line).added(line).clusters[0].1.size == v.cluster(id).size + 2,
        v.added(line).added(line).clusters[0].1.template == v.added(
            line,
        ).clusters[0].1.template,
{
    let once = v.added(line);
    law_line_is_covered_by_its_cluster(v, line);
    law_found_line_is_found_again(v, line);
    v.lemma_added(line);
    lemma_value_at(once.clusters, 0);
    assert(once.cluster(id) == once.clusters[0].1);
    law_line_is_covered_by_its_cluster(once, line);
}

/// A line leaves the settings and the capacity of a classifier, and every node of its tree but the
/// one that a new cluster is filed at.
pub proof fn law_line_leaves_the_rest(v: ClassifierView, line: Seq<Seq<char>>, p: Path)
    requires
        v.accepts(line),
    ensures
        v.added(line).settings == v.settings,
        v.added(line).capacity == v.capacity,
        v.search(line) is Some ==> v.added(line).tree == v.tree && v.added(line).clusters_count
            == v.clusters_count,
        v.search(line) is None ==> v.added(line).clusters_count == v.clusters_count + 1,
        v.tree.contains_key(p) ==> v.added(line).tree.contains_key(p),
        v.tree.contains_key(p) && v.insert_path(
            fresh_template(line, v.settings.parameterize_numeric_tokens),
        ) != Some(p) ==> v.added(line).tree[p] == v.tree[p],
{
    if v.search(line) is None {
        let seen = v.after_search(line);
        law_filing_changes_one_node(
            seen,
            seen.insert_path(v.fresh(line))->0,
            (v.clusters_count + 1) as usize,
            p,
        );
    }
}

/// Where a walk of a new template is stuck: the node that it has got to.
proof fn lemma_where_it_is_stuck(
    v: ClassifierView,
    template: Seq<TokenView>,
    k: nat,
) -> (p: Path)
    requires
        insert_walk(v.tree, template, v.settings, k) is None,
        k <= template.len(),
    ensures
        p.steps.len() < k,
        insert_walk(v.tree, template, v.settings, p.steps.len()) == Some(p),
        next_step(v.tree, p, template[p.steps.len() as int], v.settings) is None,
    decreases k,
{
    if insert_walk(v.tree, template, v.settings, (k - 1) as nat) is None {
        lemma_where_it_is_stuck(v, template, (k - 1) as nat)
    } else {
        lemma_insert_walk(v.tree, template, v.settings, (k - 1) as nat);
        insert_walk(v.tree, template, v.settings, (k - 1) as nat)->0
    }
}

/// A new template finds no node only where its tokens lead to one that has no child for the next of
/// them and none for the wildcard, and already as many children as it may have. A token with a
/// number finds one in any case, where numbers are parameters.
pub proof fn law_only_a_full_node_stops_a_template(v: ClassifierView, template: Seq<TokenView>)
    requires
        v.insert_path(template) is None,
    ensures
        exists|p: Path|
            #![trigger children(v.tree, p)]
            {
                let i = p.steps.len() as int;
                &&& p.count == template.len()
                &&& i + 1 < template.len()
                &&& i + 1 < v.settings.max_node_depth
                &&& forall|j: int|
                    0 <= j < i ==> #[trigger] p.steps[j] == template[j] || p.steps[j]
                        == TokenView::Wildcard
                &&& !v.tree.contains_key(
                    (Path { count: p.count, steps: p.steps.push(template[i]) }),
                )
                &&& !v.tree.contains_key(
                    (Path { count: p.count, steps: p.steps.push(TokenView::Wildcard) }),
                )
                &&& v.settings.parameterize_numeric_tokens ==> (
                template[i] matches TokenView::Value(w) ==> !has_numeric(w))
                &&& children(v.tree, p).len() >= child_limit(
                    v.settings.max_children as nat,
                    (i + 1) as nat,
                )
            },
{
    let k = walk_length(template.len(), v.settings.max_node_depth as nat);
    let p = lemma_where_it_is_stuck(v, template, k);
    let i = p.steps.len() as int;
    lemma_insert_walk(v.tree, template, v.settings, p.steps.len());
    assert forall|j: int| 0 <= j < i implies #[trigger] p.steps[j] == template[j] || p.steps[j]
        == TokenView::Wildcard by {
        let s = v.settings;
        lemma_walk_goes_on(v.tree, template, s, j as nat, i as nat);
        lemma_walk_goes_on(v.tree, template, s, (j + 1) as nat, i as nat);
        lemma_insert_walk(v.tree, template, s, j as nat);
        lemma_insert_walk(v.tree, template, s, (j + 1) as nat);
        let here = insert_walk(v.tree, template, s, j as nat)->0;
        let next = insert_walk(v.tree, template, s, (j + 1) as nat)->0;
        assert(next.steps =~= p.steps.take(j + 1));
        assert(next.steps.last() == p.steps[j]);
        assert(next == here.child(next_step(v.tree, here, template[j], s)->0));
    }
    assert(p.child(template[i]) == (Path { count: p.count, steps: p.steps.push(template[i]) }));
    assert(children(v.tree, p).len() >= child_limit(
        v.settings.max_children as nat,
        (i + 1) as nat,
    ));
}

}
