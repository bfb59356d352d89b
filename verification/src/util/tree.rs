//! A tree of values that are found by a path of keys.

use std::collections::HashMap;
use std::hash::Hash;
use vstd::prelude::*;
use vstd::std_specs::hash::obeys_key_model;
use vstd::std_specs::iter::IteratorSpec;

verus! {

broadcast use vstd::std_specs::hash::group_hash_axioms;

/// The nodes at one level of a tree, by key.
#[verifier::reject_recursive_types(K)]
pub struct Tree<K, V>(pub HashMap<K, TreeNode<K, V>>);

/// A node of a tree.
#[verifier::reject_recursive_types(K)]
pub struct TreeNode<K, V> {
    /// The value of the node, if it has one.
    pub value: Option<V>,
    /// The nodes below this one.
    pub children: Tree<K, V>,
}

/// A tree, seen from contracts.
#[verifier::reject_recursive_types(K)]
pub ghost struct TreeView<K, V> {
    pub nodes: Map<K, NodeView<K, V>>,
}

/// A node of a tree, seen from contracts.
#[verifier::reject_recursive_types(K)]
pub ghost struct NodeView<K, V> {
    pub value: Option<V>,
    pub children: TreeView<K, V>,
}

impl<K, V> Tree<K, V> {
    pub open spec fn view(&self) -> TreeView<K, V>
        decreases self,
    {
        TreeView {
            nodes: Map::new(
                |k: K| self.0@.contains_key(k),
                |k: K|
                    if self.0@.contains_key(k) {
                        self.0@[k].view()
                    } else {
                        arbitrary()
                    },
            ),
        }
    }
}

impl<K, V> TreeNode<K, V> {
    pub open spec fn view(&self) -> NodeView<K, V>
        decreases self,
    {
        NodeView { value: self.value, children: self.children.view() }
    }
}


impl<K, V> NodeView<K, V> {
    /// A node without value and children.
    pub open spec fn empty() -> NodeView<K, V> {
        NodeView { value: None, children: TreeView { nodes: Map::empty() } }
    }

    /// A node with a value and without children.
    pub open spec fn leaf(value: V) -> NodeView<K, V> {
        NodeView { value: Some(value), children: TreeView { nodes: Map::empty() } }
    }
}

impl<K, V> TreeView<K, V> {
    /// The node under `key`, or an empty node where there is none.
    pub open spec fn child(self, key: K) -> NodeView<K, V> {
        if self.nodes.contains_key(key) {
            self.nodes[key]
        } else {
            NodeView::empty()
        }
    }

    /// The node at the end of `path`. The empty path names no node.
    pub open spec fn node_at(self, path: Seq<K>) -> Option<NodeView<K, V>>
        decreases path.len(),
    {
        if path.len() == 0 || !self.nodes.contains_key(path[0]) {
            None
        } else if path.len() == 1 {
            Some(self.nodes[path[0]])
        } else {
            self.nodes[path[0]].children.node_at(path.drop_first())
        }
    }

    /// The value at the end of `path`.
    pub open spec fn value_at(self, path: Seq<K>) -> Option<V> {
        match self.node_at(path) {
            Some(node) => node.value,
            None => None,
        }
    }

    /// The tree after `value` was put at the end of `path`. The nodes on the way are made
    /// where they are missing; the node at the end is replaced, with all that was below it.
    pub open spec fn inserted(self, path: Seq<K>, value: V) -> TreeView<K, V>
        decreases path.len(),
    {
        if path.len() == 0 {
            self
        } else if path.len() == 1 {
            TreeView { nodes: self.nodes.insert(path[0], NodeView::leaf(value)) }
        } else {
            let node = self.child(path[0]);
            TreeView {
                nodes: self.nodes.insert(
                    path[0],
                    NodeView { children: node.children.inserted(path.drop_first(), value), ..node },
                ),
            }
        }
    }

    /// The tree after the node at the end of `path` was taken out, and that node. The nodes
    /// on the way are made where they are missing, also where there is nothing to take out
    /// at the end.
    pub open spec fn removed(self, path: Seq<K>) -> (TreeView<K, V>, Option<NodeView<K, V>>)
        decreases path.len(),
    {
        if path.len() == 0 {
            (self, None)
        } else if path.len() == 1 {
            if self.nodes.contains_key(path[0]) {
                (TreeView { nodes: self.nodes.remove(path[0]) }, Some(self.nodes[path[0]]))
            } else {
                (self, None)
            }
        } else {
            let node = self.child(path[0]);
            let (below, taken) = node.children.removed(path.drop_first());
            (
                TreeView { nodes: self.nodes.insert(path[0], NodeView { children: below, ..node }) },
                taken,
            )
        }
    }
}

impl<K: Eq + Hash, V> TreeNode<K, V> {
    /// A node with a value and without children.
    pub fn new(value: V) -> (node: Self)
        requires
            obeys_key_model::<K>(),
        ensures
            node.view() == NodeView::<K, V>::leaf(value),
    {
        let node = TreeNode { value: Some(value), children: Tree::new() };
        node
    }

    /// A node without value and children.
    pub fn empty() -> (node: Self)
        requires
            obeys_key_model::<K>(),
        ensures
            node.view() == NodeView::<K, V>::empty(),
    {
        TreeNode { value: None, children: Tree::new() }
    }
}

impl<K: Eq + Hash, V> Tree<K, V> {
    /// A tree without nodes.
    pub fn new() -> (tree: Self)
        requires
            obeys_key_model::<K>(),
        ensures
            tree.view() == (TreeView::<K, V> { nodes: Map::empty() }),
    {
        let tree = Tree(HashMap::new());
        assert(tree.view().nodes =~= Map::<K, NodeView<K, V>>::empty());
        tree
    }

    /// The node at the end of `path`, if the path leads to one.
    pub fn get_node(&self, path: &[K]) -> (node: Option<&TreeNode<K, V>>)
        requires
            obeys_key_model::<K>(),
        ensures
            match node {
                Some(found) => self.view().node_at(path@) == Some(found.view()),
                None => self.view().node_at(path@) is None,
            },
    {
        let mut tree = self;
        let mut at: usize = 0;
        assert(path@.subrange(0, path@.len() as int) =~= path@);
        while at < path.len()
            invariant
                at <= path@.len(),
                obeys_key_model::<K>(),
                at < path@.len() ==> self.view().node_at(path@) == tree.view().node_at(
                    path@.subrange(at as int, path@.len() as int),
                ),
                at == path@.len() ==> self.view().node_at(path@) is None,
            decreases path@.len() - at,
        {
            let ghost rest = path@.subrange(at as int, path@.len() as int);
            assert(rest[0] == path@[at as int]);
            match tree.0.get(&path[at]) {
                None => {
                    return None;
                },
                Some(node) => {
                    assert(tree.view().nodes[path@[at as int]] == node.view());
                    if at + 1 == path.len() {
                        return Some(node);
                    }
                    assert(rest.drop_first() =~= path@.subrange(at + 1, path@.len() as int));
                    tree = &node.children;
                    at += 1;
                },
            }
        }
        None
    }

    /// The value at the end of `path`, if the path leads to a node and the node has a value.
    pub fn get(&self, path: &[K]) -> (value: Option<&V>)
        requires
            obeys_key_model::<K>(),
        ensures
            match value {
                Some(found) => self.view().value_at(path@) == Some(*found),
                None => self.view().value_at(path@) is None,
            },
    {
        match self.get_node(path) {
            Some(node) => node.value.as_ref(),
            None => None,
        }
    }
}

impl<K: Eq + Hash + Copy, V> Tree<K, V> {
    fn insert_from(&mut self, path: &[K], from: usize, value: V)
        requires
            obeys_key_model::<K>(),
            from < path@.len(),
        ensures
            final(self).view() == old(self).view().inserted(
                path@.subrange(from as int, path@.len() as int),
                value,
            ),
        decreases path@.len() - from,
    {
        let ghost before = self.view();
        let ghost rest = path@.subrange(from as int, path@.len() as int);
        let key = path[from];
        assert(rest[0] == key);
        if from + 1 == path.len() {
            self.0.insert(key, TreeNode::new(value));
            assert(self.view().nodes =~= before.nodes.insert(key, NodeView::leaf(value)));
        } else {
            assert(rest.drop_first() =~= path@.subrange(from + 1, path@.len() as int));
            let mut node = match self.0.remove(&key) {
                Some(node) => node,
                None => TreeNode::empty(),
            };
            assert(node.view() == before.child(key));
            node.children.insert_from(path, from + 1, value);
            let ghost made = node.view();
            self.0.insert(key, node);
            assert(self.view().nodes =~= before.nodes.insert(key, made));
        }
    }

    /// Puts `value` at the end of `path`. Fails, and changes nothing, if the path is empty.
    pub fn insert(&mut self, path: &[K], value: V) -> (r: Result<(), ()>)
        requires
            obeys_key_model::<K>(),
        ensures
            r is Err <==> path@.len() == 0,
            final(self).view() == old(self).view().inserted(path@, value),
    {
        if path.len() == 0 {
            return Err(());
        }
        assert(path@.subrange(0, path@.len() as int) =~= path@);
        self.insert_from(path, 0, value);
        Ok(())
    }

    fn remove_from(&mut self, path: &[K], from: usize) -> (r: Result<TreeNode<K, V>, ()>)
        requires
            obeys_key_model::<K>(),
            from < path@.len(),
        ensures
            final(self).view() == old(self).view().removed(
                path@.subrange(from as int, path@.len() as int),
            ).0,
            match r {
                Ok(node) => old(self).view().removed(
                    path@.subrange(from as int, path@.len() as int),
                ).1 == Some(node.view()),
                Err(_) => old(self).view().removed(
                    path@.subrange(from as int, path@.len() as int),
                ).1 is None,
            },
        decreases path@.len() - from,
    {
        let ghost before = self.view();
        let ghost rest = path@.subrange(from as int, path@.len() as int);
        let key = path[from];
        assert(rest[0] == key);
        if from + 1 == path.len() {
            match self.0.remove(&key) {
                Some(node) => {
                    assert(self.view().nodes =~= before.nodes.remove(key));
                    Ok(node)
                },
                None => {
                    assert(self.view().nodes =~= before.nodes);
                    Err(())
                },
            }
        } else {
            assert(rest.drop_first() =~= path@.subrange(from + 1, path@.len() as int));
            let mut node = match self.0.remove(&key) {
                Some(node) => node,
                None => TreeNode::empty(),
            };
            assert(node.view() == before.child(key));
            let taken = node.children.remove_from(path, from + 1);
            let ghost made = node.view();
            self.0.insert(key, node);
            assert(self.view().nodes =~= before.nodes.insert(key, made));
            taken
        }
    }

    /// Takes the node at the end of `path` out of the tree, with all that is below it.
    /// Fails if the path is empty or leads to no node.
    pub fn remove(&mut self, path: &[K]) -> (r: Result<TreeNode<K, V>, ()>)
        requires
            obeys_key_model::<K>(),
        ensures
            final(self).view() == old(self).view().removed(path@).0,
            match r {
                Ok(node) => old(self).view().removed(path@).1 == Some(node.view()),
                Err(_) => old(self).view().removed(path@).1 is None,
            },
    {
        if path.len() == 0 {
            return Err(());
        }
        assert(path@.subrange(0, path@.len() as int) =~= path@);
        self.remove_from(path, 0)
    }
}


impl<K, V> NodeView<K, V> {
    /// The value of the node itself for the empty path, and else the value at the end of
    /// `path` below it.
    pub open spec fn value_of(self, path: Seq<K>) -> Option<V> {
        if path.len() == 0 {
            self.value
        } else {
            self.children.value_at(path)
        }
    }

    /// Whether `values` are the values that stand at `paths`, in that order, the paths
    /// being those that begin with one of `keys`, and the empty one, as far as they lead
    /// to a value. No path comes before one that it continues.
    pub open spec fn listed_among(self, keys: Seq<K>, paths: Seq<Seq<K>>, values: Seq<V>) -> bool {
        &&& paths.len() == values.len()
        &&& forall|path: Seq<K>| #[trigger]
            paths.contains(path) <==> self.value_of(path) is Some && (path.len() == 0
                || keys.contains(path[0]))
        &&& forall|i: int|
            0 <= i < paths.len() ==> self.value_of(#[trigger] paths[i]) == Some(values[i])
        &&& forall|i: int, j: int|
            0 <= i < paths.len() && 0 <= j < paths.len() && #[trigger] paths[i].is_prefix_of(
                #[trigger] paths[j],
            ) ==> i <= j
    }

    /// Whether `values` are the values of the node and of all nodes below it, each once
    /// and `values[i]` from `paths[i]`, with no value before that of a node above it.
    pub open spec fn listed(self, paths: Seq<Seq<K>>, values: Seq<V>) -> bool {
        &&& paths.len() == values.len()
        &&& forall|path: Seq<K>| #[trigger] paths.contains(path) <==> self.value_of(path) is Some
        &&& forall|i: int|
            0 <= i < paths.len() ==> self.value_of(#[trigger] paths[i]) == Some(values[i])
        &&& forall|i: int, j: int|
            0 <= i < paths.len() && 0 <= j < paths.len() && #[trigger] paths[i].is_prefix_of(
                #[trigger] paths[j],
            ) ==> i <= j
    }

    /// A path below a node leads to what the rest of it leads to from the node under its
    /// first key, and to nothing where there is no such node.
    pub proof fn lemma_value_below(self, path: Seq<K>)
        requires
            path.len() > 0,
        ensures
            self.children.nodes.contains_key(path[0]) ==> self.value_of(path)
                == self.children.nodes[path[0]].value_of(path.drop_first()),
            !self.children.nodes.contains_key(path[0]) ==> self.value_of(path) is None,
    {
        if self.children.nodes.contains_key(path[0]) && path.len() > 1 {
            let rest = path.drop_first();
            assert(self.children.node_at(path) == self.children.nodes[path[0]].children.node_at(
                rest,
            ));
        }
    }

    /// In a listing no path stands twice.
    pub proof fn lemma_listed_once(self, paths: Seq<Seq<K>>, values: Seq<V>)
        requires
            self.listed(paths, values),
        ensures
            paths.no_duplicates(),
    {
        assert forall|i: int, j: int|
            0 <= i < paths.len() && 0 <= j < paths.len() && i != j implies paths[i] != paths[j] by {
            if paths[i] == paths[j] {
                assert(paths[i].is_prefix_of(paths[j]));
                assert(paths[j].is_prefix_of(paths[i]));
            }
        }
    }
}

/// `paths`, each with `key` before it.
pub open spec fn under<K>(key: K, paths: Seq<Seq<K>>) -> Seq<Seq<K>> {
    Seq::new(paths.len(), |i: int| seq![key] + paths[i])
}

proof fn lemma_listed_first<K, V>(node: NodeView<K, V>)
    ensures
        node.value matches Some(value) ==> node.listed_among(
            Seq::empty(),
            seq![Seq::empty()],
            seq![value],
        ),
        node.value is None ==> node.listed_among(Seq::empty(), Seq::empty(), Seq::empty()),
{
    match node.value {
        Some(value) => {
            let paths: Seq<Seq<K>> = seq![Seq::empty()];
            assert forall|path: Seq<K>| #[trigger]
                paths.contains(path) <==> node.value_of(path) is Some && (path.len() == 0
                    || Seq::<K>::empty().contains(path[0])) by {
                if path.len() == 0 {
                    assert(path =~= Seq::empty());
                    assert(paths[0] == path);
                }
            }
        },
        None => {},
    }
}

proof fn lemma_listed_next<K, V>(
    node: NodeView<K, V>,
    keys: Seq<K>,
    key: K,
    paths: Seq<Seq<K>>,
    values: Seq<V>,
    below: Seq<Seq<K>>,
    found: Seq<V>,
)
    requires
        node.listed_among(keys, paths, values),
        !keys.contains(key),
        node.children.nodes.contains_key(key),
        node.children.nodes[key].listed(below, found),
    ensures
        node.listed_among(keys.push(key), paths + under(key, below), values + found),
{
    let child = node.children.nodes[key];
    let more = under(key, below);
    let all = paths + more;
    let seen = values + found;
    let wider = keys.push(key);
    assert forall|i: int| 0 <= i < more.len() implies node.value_of(#[trigger] more[i]) == Some(
        found[i],
    ) && more[i].len() > 0 && more[i][0] == key && more[i].drop_first() == below[i] by {
        assert(more[i].drop_first() =~= below[i]);
        node.lemma_value_below(more[i]);
    }
    assert forall|i: int| 0 <= i < paths.len() implies (#[trigger] paths[i]).len() == 0
        || keys.contains(paths[i][0]) by {
        assert(paths.contains(paths[i]));
    }
    assert forall|path: Seq<K>| #[trigger]
        all.contains(path) <==> node.value_of(path) is Some && (path.len() == 0 || wider.contains(
            path[0],
        )) by {
        if all.contains(path) {
            let i = choose|i: int| 0 <= i < all.len() && all[i] == path;
            if i < paths.len() {
                assert(paths.contains(path));
                if path.len() > 0 {
                    let at = choose|at: int| 0 <= at < keys.len() && keys[at] == path[0];
                    assert(wider[at] == path[0]);
                }
            } else {
                assert(path == more[i - paths.len()]);
                assert(wider[keys.len() as int] == key);
            }
        }
        if node.value_of(path) is Some && (path.len() == 0 || wider.contains(path[0])) {
            if path.len() > 0 && path[0] == key {
                node.lemma_value_below(path);
                assert(below.contains(path.drop_first()));
                let at = choose|at: int| 0 <= at < below.len() && below[at] == path.drop_first();
                assert(more[at] =~= path);
                assert(all[paths.len() + at] == path);
            } else {
                if path.len() > 0 {
                    let at = choose|at: int| 0 <= at < wider.len() && wider[at] == path[0];
                    assert(keys[at] == path[0]);
                }
                assert(paths.contains(path));
                let at = choose|at: int| 0 <= at < paths.len() && paths[at] == path;
                assert(all[at] == path);
            }
        }
    }
    assert forall|i: int| 0 <= i < all.len() implies node.value_of(#[trigger] all[i]) == Some(
        seen[i],
    ) by {
        if i >= paths.len() {
            assert(all[i] == more[i - paths.len()]);
        }
    }
    assert forall|i: int, j: int|
        0 <= i < all.len() && 0 <= j < all.len() && #[trigger] all[i].is_prefix_of(
            #[trigger] all[j],
        ) implies i <= j by {
        if i >= paths.len() && j < paths.len() {
            assert(all[i] == more[i - paths.len()]);
            assert(all[j] == paths[j]);
            assert(all[i][0] == all[j][0]);
        } else if i >= paths.len() && j >= paths.len() {
            let a = i - paths.len();
            let b = j - paths.len();
            assert(all[i] == more[a]);
            assert(all[j] == more[b]);
            assert(below[a] =~= more[a].drop_first());
            assert(below[b] =~= more[b].drop_first());
            assert(below[a].is_prefix_of(below[b])) by {
                assert(below[a] =~= below[b].subrange(0, below[a].len() as int)) by {
                    assert forall|n: int| 0 <= n < below[a].len() implies below[a][n]
                        == below[b][n] by {
                        assert(more[a][n + 1] == more[b][n + 1]);
                    }
                }
            }
        } else if i < paths.len() && j < paths.len() {
            assert(paths[i].is_prefix_of(paths[j]));
        }
    }
}

proof fn lemma_listed_last<K, V>(
    node: NodeView<K, V>,
    keys: Seq<K>,
    paths: Seq<Seq<K>>,
    values: Seq<V>,
)
    requires
        node.listed_among(keys, paths, values),
        forall|key: K| node.children.nodes.contains_key(key) ==> keys.contains(key),
    ensures
        node.listed(paths, values),
{
    assert forall|path: Seq<K>| #[trigger] paths.contains(path) <==> node.value_of(path) is Some by {
        if node.value_of(path) is Some && path.len() > 0 {
            node.lemma_value_below(path);
        }
    }
}

fn keys_of<K: Eq + Hash + Copy, V>(map: &HashMap<K, V>) -> (keys: Vec<K>)
    requires
        obeys_key_model::<K>(),
    ensures
        keys@.to_set() == map@.dom(),
        keys@.no_duplicates(),
{
    let mut keys: Vec<K> = Vec::new();
    let source = map.keys();
    let ghost all = source.remaining();
    for key in iter: source
        invariant
            iter.seq() == all,
            keys@.len() == iter.index(),
            forall|i: int| 0 <= i < keys@.len() ==> keys@[i] == *all[i],
    {
        keys.push(*key);
    }
    assert(keys@ =~= all.unref());
    keys
}

fn gather<K: Eq + Hash + Copy, V>(node: TreeNode<K, V>, out: &mut Vec<V>) -> (paths: Ghost<
    Seq<Seq<K>>,
>)
    requires
        obeys_key_model::<K>(),
    ensures
        old(out)@.len() <= final(out)@.len(),
        final(out)@.subrange(0, old(out)@.len() as int) == old(out)@,
        node.view().listed(
            paths@,
            final(out)@.subrange(old(out)@.len() as int, final(out)@.len() as int),
        ),
    decreases node,
{
    let ghost start = out@;
    let ghost whole = node.view();
    let TreeNode { value, children } = node;
    let ghost mut paths: Seq<Seq<K>> = Seq::empty();
    let ghost mut values: Seq<V> = Seq::empty();
    proof {
        lemma_listed_first(whole);
    }
    if let Some(found) = value {
        out.push(found);
        proof {
            paths = seq![Seq::empty()];
            values = seq![found];
        }
    }
    let Tree(mut map) = children;
    let ghost all = map@;
    let keys = keys_of(&map);
    let mut i: usize = 0;
    assert(keys@.take(0) =~= Seq::empty());
    while i < keys.len()
        invariant
            obeys_key_model::<K>(),
            i <= keys@.len(),
            keys@.no_duplicates(),
            keys@.to_set() == all.dom(),
            all == node.children.0@,
            whole == node.view(),
            forall|k: K| #[trigger]
                map@.contains_key(k) <==> all.contains_key(k) && !keys@.take(i as int).contains(k),
            forall|k: K| #[trigger] map@.contains_key(k) ==> map@[k] == all[k],
            out@ =~= start + values,
            whole.listed_among(keys@.take(i as int), paths, values),
        decreases keys@.len() - i,
    {
        let key = keys[i];
        let ghost done = keys@.take(i as int);
        let ghost prior = out@;
        proof {
            assert(keys@.to_set().contains(key));
            assert(!done.contains(key));
            assert(keys@.take(i + 1) =~= done.push(key));
        }
        let taken = map.remove(&key);
        assert(taken is Some);
        if let Some(child) = taken {
            proof {
                vstd::std_specs::hash::axiom_hashmap_decreases(node.children.0);
                vstd::map::axiom_map_index_decreases_finite(all, key);
            }
            let below = gather(child, out);
            proof {
                let found = out@.subrange(prior.len() as int, out@.len() as int);
                assert(out@ =~= prior + found);
                assert(whole.children.nodes[key] == child.view());
                lemma_listed_next(whole, done, key, paths, values, below@, found);
                paths = paths + under(key, below@);
                values = values + found;
            }
        }
        proof {
            assert forall|k: K| #[trigger]
                map@.contains_key(k) <==> all.contains_key(k) && !done.push(key).contains(k) by {
                if done.push(key).contains(k) && k != key {
                    let at = choose|at: int| 0 <= at < done.push(key).len() && done.push(key)[at] == k;
                    assert(done[at] == k);
                }
                if done.contains(k) {
                    let at = choose|at: int| 0 <= at < done.len() && done[at] == k;
                    assert(done.push(key)[at] == k);
                }
                assert(done.push(key)[done.len() as int] == key);
            }
        }
        i += 1;
    }
    proof {
        assert(keys@.take(keys@.len() as int) =~= keys@);
        assert forall|key: K| whole.children.nodes.contains_key(key) implies keys@.contains(key) by {
            assert(keys@.to_set().contains(key));
        }
        lemma_listed_last(whole, keys@, paths, values);
        assert(out@.subrange(start.len() as int, out@.len() as int) =~= values);
        assert(out@.subrange(0, start.len() as int) =~= start);
    }
    Ghost(paths)
}


fn turned<V>(values: Vec<V>) -> (turned: Vec<V>)
    ensures
        turned@ == values@.reverse(),
{
    let mut values = values;
    let ghost start = values@;
    let mut turned: Vec<V> = Vec::new();
    while values.len() > 0
        invariant
            values@.len() + turned@.len() == start.len(),
            values@ == start.take(values@.len() as int),
            forall|i: int| 0 <= i < turned@.len() ==> turned@[i] == start[start.len() - 1 - i],
        decreases values@.len(),
    {
        if let Some(value) = values.pop() {
            turned.push(value);
        }
        assert(values@ =~= start.take(values@.len() as int));
    }
    assert(turned@ =~= start.reverse());
    turned
}

/// The values of a node and of all nodes below it, handed out one by one.
pub struct IntoIter<K, V> {
    /// The values that are still to come, the next one last.
    values: Vec<V>,
    /// The paths at which they stood, the next one first.
    paths: Ghost<Seq<Seq<K>>>,
}

impl<K, V> IntoIter<K, V> {
    /// The values that are still to come, the next one first.
    pub closed spec fn remaining(&self) -> Seq<V> {
        self.values@.reverse()
    }

    /// The paths at which the values that are still to come stood, the next one first.
    pub closed spec fn paths(&self) -> Seq<Seq<K>> {
        self.paths@
    }

    /// Whether there is a path for each value that is still to come.
    pub closed spec fn wf(&self) -> bool {
        self.paths@.len() == self.values@.len()
    }

    /// The next value, if there is one left.
    pub fn next(&mut self) -> (value: Option<V>)
        requires
            old(self).wf(),
        ensures
            final(self).wf(),
            match value {
                Some(value) => {
                    &&& old(self).remaining().len() > 0
                    &&& value == old(self).remaining()[0]
                    &&& final(self).remaining() == old(self).remaining().drop_first()
                    &&& final(self).paths() == old(self).paths().drop_first()
                },
                None => {
                    &&& old(self).remaining().len() == 0
                    &&& final(self).remaining() == old(self).remaining()
                    &&& final(self).paths() == old(self).paths()
                },
            },
    {
        let ghost before = self.values@;
        match self.values.pop() {
            Some(value) => {
                proof {
                    self.paths@ = self.paths@.drop_first();
                    assert(self.values@.reverse() =~= before.reverse().drop_first());
                }
                Some(value)
            },
            None => None,
        }
    }
}

impl<K: Eq + Hash + Copy, V> IntoIter<K, V> {
    /// The values of `node` and of all nodes below it: each once, that of a node before
    /// those of the nodes below it.
    pub fn new(node: TreeNode<K, V>) -> (iter: Self)
        requires
            obeys_key_model::<K>(),
        ensures
            iter.wf(),
            node.view().listed(iter.paths(), iter.remaining()),
    {
        let mut values: Vec<V> = Vec::new();
        let paths = gather(node, &mut values);
        assert(values@.subrange(0, values@.len() as int) =~= values@);
        let ghost found = values@;
        let values = turned(values);
        assert(values@.reverse() =~= found);
        IntoIter { values, paths }
    }
}

impl<K: Eq + Hash + Copy, V> TreeNode<K, V> {
    /// The values of the node and of all nodes below it: each once, that of a node before
    /// those of the nodes below it.
    pub fn into_iter(self) -> (iter: IntoIter<K, V>)
        requires
            obeys_key_model::<K>(),
        ensures
            iter.wf(),
            self.view().listed(iter.paths(), iter.remaining()),
    {
        IntoIter::new(self)
    }
}

} // verus!
