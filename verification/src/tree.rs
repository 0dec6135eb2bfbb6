//! The prefix tree that leads from the first tokens of a line to the clusters it may belong to.
use crate::token::{Token, TokenView};
use std::collections::HashMap;
use vstd::hash_map::StringHashMap;
use vstd::prelude::*;

verus! {

/// A node of the tree: how many tokens the lines have that go through it, and the tokens that
/// lead to it.
#[verifier::ext_equal]
pub struct Path {
    pub count: nat,
    pub steps: Seq<TokenView>,
}

impl Path {
    /// The root for the lines with so many tokens.
    pub open spec fn root(count: nat) -> Path {
        Path { count, steps: seq![] }
    }

    /// The child that a token leads to.
    pub open spec fn child(self, token: TokenView) -> Path {
        Path { count: self.count, steps: self.steps.push(token) }
    }

    /// The node that the last token of the path leads on from.
    pub open spec fn parent(self) -> Path {
        Path { count: self.count, steps: self.steps.drop_last() }
    }
}

/// Different nodes, and different tokens, lead to different children.
pub(crate) proof fn lemma_child_injective(p: Path, q: Path, t: TokenView, u: TokenView)
    requires
        p.child(t) == q.child(u),
    ensures
        p == q,
        t == u,
{
    assert(p.child(t).parent() =~= p && q.child(u).parent() =~= q);
    assert(p.child(t).steps.last() == t && q.child(u).steps.last() == u);
}

/// The model of the tree: the local identifiers of the clusters at each node.
pub type TreeView = Map<Path, Seq<usize>>;

/// The tokens that lead on from a node.
pub open spec fn children(tree: TreeView, node: Path) -> Set<TokenView> {
    Set::new(|t: TokenView| tree.contains_key(node.child(t)))
}

/// A tree with one more node, which has no clusters yet, where it is not there already.
pub open spec fn with_node(tree: TreeView, node: Path) -> TreeView {
    if tree.contains_key(node) {
        tree
    } else {
        tree.insert(node, seq![])
    }
}

/// A node of the tree.
struct Node {
    /// Where the texts lead that are children of the node.
    values: StringHashMap<usize>,
    /// Where every other text leads, if anywhere.
    wildcard: Option<usize>,
    cluster_ids: Vec<usize>,
}

/// A forest of prefix trees, one for each number of tokens. The nodes are in one list, and know
/// their children by their places in it.
pub struct PrefixTree {
    nodes: Vec<Node>,
    roots: HashMap<usize, usize>,
    /// The path of each node.
    paths: Ghost<Seq<Path>>,
}

impl Node {
    fn new() -> (r: Self)
        ensures
            r.values@ == Map::<Seq<char>, usize>::empty(),
            r.wildcard is None,
            r.cluster_ids@ == Seq::<usize>::empty(),
    {
        Node { values: StringHashMap::new(), wildcard: None, cluster_ids: Vec::new() }
    }

    /// The place of the child that a token leads to.
    spec fn child(self, token: TokenView) -> Option<usize> {
        match token {
            TokenView::Wildcard => self.wildcard,
            TokenView::Value(s) => if self.values@.contains_key(s) {
                Some(self.values@[s])
            } else {
                None
            },
        }
    }
}

impl View for PrefixTree {
    type V = TreeView;

    closed spec fn view(&self) -> TreeView {
        Map::new(
            |p: Path| self.paths@.contains(p),
            |p: Path| self.nodes@[self.paths@.index_of(p)].cluster_ids@,
        )
    }
}

impl PrefixTree {
    /// Nodes and paths belong together one to one, and the links between nodes are those between
    /// their paths.
    pub closed spec fn wf(self) -> bool {
        let paths = self.paths@;
        &&& self.nodes@.len() == paths.len()
        &&& paths.no_duplicates()
        &&& forall|i: int|
            0 <= i < paths.len() ==> (#[trigger] self.nodes@[i]).values@.dom().finite()
        &&& forall|n: usize| #[trigger]
            self.roots@.contains_key(n) ==> self.roots@[n] < paths.len() && paths[self.roots@[n] as int]
                == Path::root(n as nat)
        &&& forall|j: int|
            0 <= j < paths.len() ==> (#[trigger] paths[j]).count <= usize::MAX
        &&& forall|j: int|
            0 <= j < paths.len() ==> if (#[trigger] paths[j]).steps.len() == 0 {
                self.roots@.contains_key(paths[j].count as usize)
            } else {
                paths.contains(paths[j].parent())
            }
        &&& forall|i: int, t: TokenView|
            0 <= i < paths.len() && (#[trigger] self.nodes@[i].child(t)) is Some ==> {
                let j = self.nodes@[i].child(t)->0;
                j < paths.len() && paths[j as int] == paths[i].child(t)
            }
        &&& forall|i: int, t: TokenView|
            0 <= i < paths.len() && paths.contains(#[trigger] paths[i].child(t)) ==> self.nodes@[i].child(
                t,
            ) is Some
    }

    /// Whether there is a node at a place of the list.
    pub closed spec fn has_node(self, node: usize) -> bool {
        node < self.nodes@.len()
    }

    /// The path of the node at a place of the list.
    pub closed spec fn path(self, node: usize) -> Path {
        self.paths@[node as int]
    }

    /// A node's clusters are found under its path.
    proof fn lemma_at(self, node: usize)
        requires
            self.wf(),
            self.has_node(node),
        ensures
            self@.contains_key(self.path(node)),
            self@[self.path(node)] == self.nodes@[node as int].cluster_ids@,
    {
        let paths = self.paths@;
        assert(paths[node as int] == self.path(node));
        assert(paths.contains(self.path(node)));
        assert(paths.index_of(self.path(node)) == node);
    }

    /// A token leads on from a node exactly where the tree has the child's path.
    proof fn lemma_child(self, node: usize, token: TokenView)
        requires
            self.wf(),
            self.has_node(node),
        ensures
            self@.contains_key(self.path(node).child(token)) <==> self.nodes@[node as int].child(
                token,
            ) is Some,
            self.nodes@[node as int].child(token) matches Some(j) ==> self.has_node(j) && self.path(
                j,
            ) == self.path(node).child(token),
    {
        let p = self.paths@[node as int].child(token);
        if self.nodes@[node as int].child(token) is Some {
            let j = self.nodes@[node as int].child(token)->0;
            assert(self.paths@[j as int] == p);
            assert(self.paths@.contains(p));
        }
    }

    /// A node that is no root has its parent in the tree.
    pub(crate) proof fn lemma_parents(self)
        requires
            self.wf(),
        ensures
            forall|p: Path, t: TokenView| #[trigger]
                self@.contains_key(p.child(t)) ==> self@.contains_key(p),
    {
        assert forall|p: Path, t: TokenView| #[trigger]
            self@.contains_key(p.child(t)) implies self@.contains_key(p) by {
            let j = self.paths@.index_of(p.child(t));
            assert(self.paths@[j].steps.len() > 0);
            assert(p.child(t).parent() =~= p);
        }
    }

    /// The children of a node are those of its texts and that of its wildcard.
    proof fn lemma_child_count(self, node: usize)
        requires
            self.wf(),
            self.has_node(node),
        ensures
            children(self@, self.path(node)).finite(),
            children(self@, self.path(node)).len() == self.nodes@[node as int].values@.dom().len()
                + if self.nodes@[node as int].wildcard is Some {
                1int
            } else {
                0
            },
    {
        let n = self.nodes@[node as int];
        let texts = n.values@.dom();
        let all = children(self@, self.path(node));
        let values = texts.map(|s: Seq<char>| TokenView::Value(s));
        vstd::set_lib::lemma_map_size(texts, values, |s: Seq<char>| TokenView::Value(s));
        assert forall|t: TokenView| all.contains(t) <==> n.child(t) is Some by {
            self.lemma_child(node, t);
        }
        assert forall|t: TokenView|
            n.child(t) is Some && t != TokenView::Wildcard implies values.contains(t) by {
            assert(texts.contains(t->Value_0));
        }
        if n.wildcard is Some {
            assert(all =~= values.insert(TokenView::Wildcard));
        } else {
            assert(all =~= values);
        }
    }

    /// No node has infinitely many children.
    pub(crate) proof fn lemma_children_are_finite(self, p: Path)
        requires
            self.wf(),
        ensures
            children(self@, p).finite(),
    {
        if self@.contains_key(p) {
            let j = self.paths@.index_of(p);
            assert(self.paths@[j] == p);
            assert(self.nodes@.len() == self.nodes.len());
            self.lemma_child_count(j as usize);
        } else {
            self.lemma_parents();
            assert(children(self@, p) =~= Set::empty());
        }
    }

    /// A new node at the end of the list is one more node of the tree.
    proof fn lemma_grown(self, after: PrefixTree, p: Path)
        requires
            self.wf(),
            after.paths@ == self.paths@.push(p),
            !self.paths@.contains(p),
            after.nodes@.len() == self.nodes@.len() + 1,
            forall|i: int|
                0 <= i < self.nodes@.len() ==> (#[trigger] after.nodes@[i]).cluster_ids@
                    == self.nodes@[i].cluster_ids@,
            after.nodes@.last().cluster_ids@ == Seq::<usize>::empty(),
        ensures
            after.paths@.no_duplicates(),
            after@ == with_node(self@, p),
    {
        let old_paths = self.paths@;
        let paths = after.paths@;
        assert forall|q: Path| old_paths.contains(q) implies paths.contains(q) && paths.index_of(q)
            == old_paths.index_of(q) by {
            let i = old_paths.index_of(q);
            assert(paths[i] == q);
        }
        assert(paths[old_paths.len() as int] == p);
        assert(paths.index_of(p) == old_paths.len());
        assert forall|q: Path| paths.contains(q) implies q == p || old_paths.contains(q) by {
            let i = paths.index_of(q);
            if i < old_paths.len() {
                assert(old_paths[i] == q);
            }
        }
        assert(after@ =~= with_node(self@, p));
    }

    /// The links of the nodes that were there, together with one to a new node, are those between
    /// the paths.
    proof fn lemma_links_kept(self, after: PrefixTree, p: Path)
        requires
            self.wf(),
            after.paths@ == self.paths@.push(p),
            !self.paths@.contains(p),
            after.paths@.no_duplicates(),
            after.nodes@.len() == self.nodes@.len() + 1,
            p.count <= usize::MAX,
            p.steps.len() > 0 ==> self.paths@.contains(p.parent()),
            after.roots@ == if p.steps.len() == 0 {
                self.roots@.insert(p.count as usize, self.nodes@.len() as usize)
            } else {
                self.roots@
            },
            self.nodes@.len() <= usize::MAX,
            forall|i: int|
                0 <= i < after.nodes@.len() ==> (
                #[trigger] after.nodes@[i]).values@.dom().finite(),
            forall|t: TokenView| after.nodes@.last().child(t) is None,
            forall|i: int, t: TokenView|
                0 <= i < self.nodes@.len() ==> #[trigger] after.nodes@[i].child(t) == if p
                    == self.paths@[i].child(t) {
                    Some(self.nodes@.len() as usize)
                } else {
                    self.nodes@[i].child(t)
                },
        ensures
            after.wf(),
    {
        let paths = after.paths@;
        let before = self.paths@;
        let last = before.len() as int;
        assert(paths[last] == p);
        assert forall|n: usize| #[trigger] after.roots@.contains_key(n) implies after.roots@[n]
            < paths.len() && paths[after.roots@[n] as int] == Path::root(n as nat) by {
            if p.steps.len() == 0 && n == p.count {
                assert(p =~= Path::root(n as nat));
            } else {
                assert(self.roots@.contains_key(n));
            }
        }
        assert forall|j: int| 0 <= j < paths.len() implies if (#[trigger] paths[j]).steps.len() == 0 {
            after.roots@.contains_key(paths[j].count as usize)
        } else {
            paths.contains(paths[j].parent())
        } by {
            if j < last {
                assert(before[j] == paths[j]);
                if paths[j].steps.len() > 0 {
                    let k = before.index_of(paths[j].parent());
                    assert(paths[k] == paths[j].parent());
                }
            } else if p.steps.len() > 0 {
                let k = before.index_of(p.parent());
                assert(paths[k] == p.parent());
            }
        }
        assert forall|i: int, t: TokenView|
            0 <= i < paths.len() && (#[trigger] after.nodes@[i].child(t)) is Some implies {
            let j = after.nodes@[i].child(t)->0;
            j < paths.len() && paths[j as int] == paths[i].child(t)
        } by {
            if i == last {
                assert(after.nodes@.last().child(t) is None);
            } else if p != before[i].child(t) {
                assert(self.nodes@[i].child(t) is Some);
            }
        }
        assert forall|i: int, t: TokenView|
            0 <= i < paths.len() && paths.contains(
                #[trigger] paths[i].child(t),
            ) implies after.nodes@[i].child(t) is Some by {
            let c = paths[i].child(t);
            let j = paths.index_of(c);
            assert(paths[j] == c);
            if i < last {
                assert(before[i] == paths[i]);
                if j < last {
                    assert(before[j] == c);
                    assert(before.contains(before[i].child(t)));
                }
            } else {
                assert(c.steps.len() == p.steps.len() + 1);
                assert(j < last && before[j] == c);
                assert(c.parent() =~= p);
                assert(before.contains(c.parent()));
            }
        }
    }

    /// A change of the clusters at a node changes the tree there and nowhere else.
    proof fn lemma_ids_changed(self, after: PrefixTree, node: usize)
        requires
            self.wf(),
            self.has_node(node),
            after.paths@ == self.paths@,
            after.roots@ == self.roots@,
            after.nodes@.len() == self.nodes@.len(),
            forall|i: int|
                0 <= i < self.nodes@.len() ==> (#[trigger] after.nodes@[i]).values@
                    == self.nodes@[i].values@ && after.nodes@[i].wildcard == self.nodes@[i].wildcard,
            forall|i: int|
                0 <= i < self.nodes@.len() && i != node ==> (
                #[trigger] after.nodes@[i]).cluster_ids@ == self.nodes@[i].cluster_ids@,
        ensures
            after.wf(),
            after@ == self@.insert(self.path(node), after.nodes@[node as int].cluster_ids@),
    {
        assert forall|i: int, t: TokenView| 0 <= i < self.nodes@.len() implies (
        #[trigger] after.nodes@[i].child(t)) == self.nodes@[i].child(t) by {}
        assert(after.wf());
        self.lemma_at(node);
        let ids = after.nodes@[node as int].cluster_ids@;
        let paths = after.paths@;
        assert forall|p: Path| paths.contains(p) implies after.nodes@[paths.index_of(
            p,
        )].cluster_ids@ == self@.insert(self.path(node), ids)[p] by {
            let i = paths.index_of(p);
            assert(paths[i] == p);
        }
        assert(after@ =~= self@.insert(self.path(node), ids));
    }

    /// A tree without nodes.
    pub fn new() -> (r: Self)
        ensures
            r.wf(),
            r@ == Map::<Path, Seq<usize>>::empty(),
    {
        let r = PrefixTree { nodes: Vec::new(), roots: HashMap::new(), paths: Ghost(Seq::empty()) };
        assert(r@ =~= Map::<Path, Seq<usize>>::empty());
        r
    }

    /// The root for the lines with so many tokens.
    pub fn root(&self, count: usize) -> (r: Option<usize>)
        requires
            self.wf(),
        ensures
            r is Some <==> self@.contains_key(Path::root(count as nat)),
            r matches Some(node) ==> self.has_node(node) && self.path(node) == Path::root(count as nat),
    {
        proof {
            if self.paths@.contains(Path::root(count as nat)) {
                let j = self.paths@.index_of(Path::root(count as nat));
                assert(self.paths@[j].steps.len() == 0);
            }
            if self.roots@.contains_key(count) {
                assert(self.paths@[self.roots@[count] as int] == Path::root(count as nat));
            }
        }
        match self.roots.get(&count) {
            Some(node) => Some(*node),
            None => None,
        }
    }

    /// The root for the lines with so many tokens, made where there is none.
    pub fn root_or_insert(&mut self, count: usize) -> (node: usize)
        requires
            old(self).wf(),
        ensures
            final(self).wf(),
            final(self)@ == with_node(old(self)@, Path::root(count as nat)),
            final(self).has_node(node),
            final(self).path(node) == Path::root(count as nat),
    {
        if let Some(node) = self.root(count) {
            return node;
        }
        let ghost p = Path::root(count as nat);
        let node: usize = self.nodes.len();
        self.nodes.push(Node::new());
        self.roots.insert(count, node);
        self.paths = Ghost(self.paths@.push(p));
        proof {
            old(self).lemma_grown(*self, p);
            old(self).lemma_links_kept(*self, p);
        }
        node
    }

    /// The child that a text leads to.
    pub fn value_child(&self, node: usize, text: &str) -> (r: Option<usize>)
        requires
            self.wf(),
            self.has_node(node),
        ensures
            r is Some <==> self@.contains_key(self.path(node).child(TokenView::Value(text@))),
            r matches Some(c) ==> self.has_node(c) && self.path(c) == self.path(node).child(
                TokenView::Value(text@),
            ),
    {
        proof {
            self.lemma_child(node, TokenView::Value(text@));
        }
        match self.nodes[node].values.get(text) {
            Some(c) => Some(*c),
            None => None,
        }
    }

    /// The child for the texts that are no children themselves.
    pub fn wildcard_child(&self, node: usize) -> (r: Option<usize>)
        requires
            self.wf(),
            self.has_node(node),
        ensures
            r is Some <==> self@.contains_key(self.path(node).child(TokenView::Wildcard)),
            r matches Some(c) ==> self.has_node(c) && self.path(c) == self.path(node).child(
                TokenView::Wildcard,
            ),
    {
        proof {
            self.lemma_child(node, TokenView::Wildcard);
        }
        self.nodes[node].wildcard
    }

    /// The child that a token leads to.
    pub fn child(&self, node: usize, token: &Token) -> (r: Option<usize>)
        requires
            self.wf(),
            self.has_node(node),
        ensures
            r is Some <==> self@.contains_key(self.path(node).child(token@)),
            r matches Some(c) ==> self.has_node(c) && self.path(c) == self.path(node).child(token@),
    {
        match token {
            Token::Wildcard => self.wildcard_child(node),
            Token::Value(s) => self.value_child(node, s.as_str()),
        }
    }

    /// How many children a node has.
    pub fn child_count(&self, node: usize) -> (r: u128)
        requires
            self.wf(),
            self.has_node(node),
        ensures
            children(self@, self.path(node)).finite(),
            r == children(self@, self.path(node)).len(),
    {
        proof {
            self.lemma_child_count(node);
        }
        let n = &self.nodes[node];
        n.values.len() as u128 + if n.wildcard.is_some() {
            1u128
        } else {
            0u128
        }
    }

    /// The child that a token leads to, made where there is none.
    pub fn child_or_insert(&mut self, node: usize, token: &Token) -> (c: usize)
        requires
            old(self).wf(),
            old(self).has_node(node),
        ensures
            final(self).wf(),
            final(self)@ == with_node(old(self)@, old(self).path(node).child(token@)),
            final(self).has_node(c),
            final(self).path(c) == old(self).path(node).child(token@),
    {
        if let Some(c) = self.child(node, token) {
            return c;
        }
        let ghost p = self.path(node).child(token@);
        let c: usize = self.nodes.len();
        self.nodes.push(Node::new());
        match token {
            Token::Wildcard => {
                self.nodes[node].wildcard = Some(c);
            },
            Token::Value(s) => {
                self.nodes[node].values.insert(s.clone(), c);
            },
        }
        self.paths = Ghost(self.paths@.push(p));
        proof {
            old(self).lemma_grown(*self, p);
            assert(p.parent() =~= old(self).path(node));
            assert(old(self).paths@[node as int] == p.parent());
            assert forall|i: int, t: TokenView| 0 <= i < old(self).nodes@.len() implies (
            #[trigger] self.nodes@[i].child(t)) == if p == old(self).paths@[i].child(t) {
                Some(c)
            } else {
                old(self).nodes@[i].child(t)
            } by {
                if p == old(self).paths@[i].child(t) {
                    lemma_child_injective(old(self).paths@[i], old(self).path(node), t, token@);
                }
            }
            old(self).lemma_links_kept(*self, p);
        }
        c
    }

    /// The local identifiers of the clusters at a node.
    pub fn cluster_ids(&self, node: usize) -> (r: &Vec<usize>)
        requires
            self.wf(),
            self.has_node(node),
        ensures
            self@.contains_key(self.path(node)),
            r@ == self@[self.path(node)],
    {
        proof {
            self.lemma_at(node);
        }
        &self.nodes[node].cluster_ids
    }

    /// Adds the local identifier of a cluster at a node.
    pub fn push_cluster_id(&mut self, node: usize, id: usize)
        requires
            old(self).wf(),
            old(self).has_node(node),
        ensures
            final(self).wf(),
            final(self)@ == old(self)@.insert(
                old(self).path(node),
                old(self)@[old(self).path(node)].push(id),
            ),
    {
        self.nodes[node].cluster_ids.push(id);
        proof {
            old(self).lemma_at(node);
            old(self).lemma_ids_changed(*self, node);
        }
    }

    /// Replaces the local identifiers of the clusters at a node.
    pub fn set_cluster_ids(&mut self, node: usize, ids: Vec<usize>)
        requires
            old(self).wf(),
            old(self).has_node(node),
        ensures
            final(self).wf(),
            final(self)@ == old(self)@.insert(old(self).path(node), ids@),
    {
        self.nodes[node].cluster_ids = ids;
        proof {
            old(self).lemma_ids_changed(*self, node);
        }
    }
}

}
