use vstd::prelude::*;
use petgraph::stable_graph::{EdgeIndex, NodeIndex, StableGraph};
use crate::package::{DepType, Package, PackageSpec};

verus! {

/// One physically distinct installed package instance.
#[derive(Debug)]
pub struct Node {
    pub package: Package,
    /// The node that holds this one in its install scope; `None` only for the root.
    pub parent: Option<usize>,
    /// This node's own install scope: package names (matched without regard
    /// to letter case) and the nodes installed under them.
    pub children: Vec<(String, usize)>,
    /// The requirements this node declares, by package name, as edge indices.
    pub dependencies: Vec<(String, usize)>,
}

/// A declared requirement.
#[derive(Debug)]
pub struct Edge {
    pub requested: PackageSpec,
    pub dep_type: DepType,
}

#[verifier::external_type_specification]
#[verifier::external_body]
#[verifier::reject_recursive_types(N)]
#[verifier::reject_recursive_types(E)]
#[verifier::reject_recursive_types(Ty)]
#[verifier::reject_recursive_types(Ix)]
pub struct ExStableGraph<N, E, Ty, Ix>(StableGraph<N, E, Ty, Ix>);

#[verifier::external_type_specification]
#[verifier::external_body]
pub struct ExDirected(petgraph::Directed);

pub type Arena = StableGraph<Node, Edge>;

pub type NodeMap = Map<nat, Node>;

pub type EdgeMap = Map<nat, Edge>;

/// The node weights that a stable graph holds, by node index.
pub uninterp spec fn graph_nodes(g: Arena) -> Map<nat, Node>;

/// The edge weights that a stable graph holds, by edge index.
pub uninterp spec fn graph_edges(g: Arena) -> Map<nat, Edge>;

/// Whether two names are equal under Unicode case folding.
pub uninterp spec fn caseless_eq(a: Seq<char>, b: Seq<char>) -> bool;

/// The largest index a node or edge can take (`u32::MAX` is petgraph's "end").
pub const INDEX_LIMIT: usize = 0xffff_ffff;

/// Relies on `StableGraph::new`: a graph with no nodes and no edges.
#[verifier::external_body]
fn arena_new() -> (r: Arena)
    ensures
        graph_nodes(r) == NodeMap::empty(),
        graph_edges(r) == EdgeMap::empty(),
{
    StableGraph::new()
}

/// Relies on `StableGraph::add_node`: the weight goes under a fresh index,
/// every other node and every edge stays. It panics only once the index
/// space is used up, which `requires` leaves out.
#[verifier::external_body]
fn arena_add_node(g: &mut Arena, n: Node) -> (r: usize)
    requires
        graph_nodes(*old(g)).dom().finite(),
        graph_nodes(*old(g)).dom().len() + 2 < INDEX_LIMIT,
    ensures
        r < INDEX_LIMIT,
        !graph_nodes(*old(g)).contains_key(r as nat),
        graph_nodes(*final(g)) == graph_nodes(*old(g)).insert(r as nat, n),
        graph_edges(*final(g)) == graph_edges(*old(g)),
{
    g.add_node(n).index()
}

/// Relies on `StableGraph::add_edge`: the weight goes under a fresh edge
/// index, the nodes stay. It panics on an absent endpoint or once the
/// index space is used up, which `requires` leaves out.
#[verifier::external_body]
fn arena_add_edge(g: &mut Arena, a: usize, b: usize, e: Edge) -> (r: usize)
    requires
        graph_nodes(*old(g)).contains_key(a as nat),
        graph_nodes(*old(g)).contains_key(b as nat),
        a < INDEX_LIMIT,
        b < INDEX_LIMIT,
        graph_edges(*old(g)).dom().finite(),
        graph_edges(*old(g)).dom().len() + 2 < INDEX_LIMIT,
    ensures
        r < INDEX_LIMIT,
        !graph_edges(*old(g)).contains_key(r as nat),
        graph_edges(*final(g)) == graph_edges(*old(g)).insert(r as nat, e),
        graph_nodes(*final(g)) == graph_nodes(*old(g)),
{
    g.add_edge(NodeIndex::new(a), NodeIndex::new(b), e).index()
}

/// Relies on `StableGraph::node_weight`: the weight under an index, if any.
#[verifier::external_body]
fn arena_node(g: &Arena, i: usize) -> (r: Option<&Node>)
    requires
        i < INDEX_LIMIT,
    ensures
        r.is_some() == graph_nodes(*g).contains_key(i as nat),
        r matches Some(n) ==> *n == graph_nodes(*g)[i as nat],
{
    g.node_weight(NodeIndex::new(i))
}

/// Relies on `StableGraph::node_weight_mut`: a mutable borrow of the weight
/// under an index; what is written through it replaces that weight.
#[verifier::external_body]
fn arena_node_mut(g: &mut Arena, i: usize) -> (r: &mut Node)
    requires
        i < INDEX_LIMIT,
        graph_nodes(*old(g)).contains_key(i as nat),
    ensures
        *r == graph_nodes(*old(g))[i as nat],
        graph_nodes(*final(g)) == graph_nodes(*old(g)).insert(i as nat, *final(r)),
        graph_edges(*final(g)) == graph_edges(*old(g)),
{
    g.node_weight_mut(NodeIndex::new(i)).unwrap()
}

/// Relies on `StableGraph::edge_weight`: the weight under an edge index, if any.
#[verifier::external_body]
fn arena_edge(g: &Arena, i: usize) -> (r: Option<&Edge>)
    requires
        i < INDEX_LIMIT,
    ensures
        r.is_some() == graph_edges(*g).contains_key(i as nat),
        r matches Some(e) ==> *e == graph_edges(*g)[i as nat],
{
    g.edge_weight(EdgeIndex::new(i))
}

/// Relies on `StableGraph::node_indices`: every occupied index once, in
/// increasing order.
#[verifier::external_body]
fn arena_node_indices(g: &Arena) -> (r: Vec<usize>)
    ensures
        forall|i: int| 0 <= i < r@.len() ==> graph_nodes(*g).contains_key(#[trigger] r@[i] as nat),
        forall|k: nat| graph_nodes(*g).contains_key(k) ==> exists|i: int| 0 <= i < r@.len() && #[trigger] r@[i] as nat == k,
        forall|i: int, j: int| 0 <= i < j < r@.len() ==> r@[i] < r@[j],
{
    g.node_indices().map(|i| i.index()).collect()
}

/// Whether two strings hold the same characters.
fn str_eq(a: &str, b: &str) -> (r: bool)
    ensures
        r == (a@ == b@),
{
    let la = a.unicode_len();
    if la != b.unicode_len() {
        return false;
    }
    let mut i: usize = 0;
    while i < la
        invariant
            la == a@.len(),
            la == b@.len(),
            i <= la,
            a@.take(i as int) == b@.take(i as int),
        decreases la - i,
    {
        if a.get_char(i) != b.get_char(i) {
            return false;
        }
        assert(a@.take(i + 1) =~= a@.take(i as int).push(a@[i as int]));
        assert(b@.take(i + 1) =~= b@.take(i as int).push(b@[i as int]));
        i = i + 1;
    }
    assert(a@ =~= a@.take(la as int));
    assert(b@ =~= b@.take(la as int));
    true
}

/// Relies on `unicase::eq`: equality of two strings under case folding,
/// which compares both sides alike and so does not depend on their order.
#[verifier::external_body]
fn names_match(a: &str, b: &str) -> (r: bool)
    ensures
        r == caseless_eq(a@, b@),
        r == caseless_eq(b@, a@),
{
    unicase::eq(a, b)
}

/// An arena of installed-package nodes and requirement edges.
pub struct Graph {
    pub root: usize,
    pub inner: Arena,
    pub node_count: usize,
    pub edge_count: usize,
    /// Above every node index in use.
    pub node_bound: usize,
    /// Above every edge index in use.
    pub edge_bound: usize,
    /// Each node's distance from the root.
    pub depth: Ghost<Map<nat, nat>>,
}

/// No two child slots have names that match under case folding.
pub open spec fn keys_distinct(children: Seq<(String, usize)>) -> bool {
    forall|i: int, j: int| 0 <= i < j < children.len() ==> !caseless_eq(#[trigger] children[i].0@, #[trigger] children[j].0@)
}

/// No two dependencies have the same name.
pub open spec fn names_distinct(deps: Seq<(String, usize)>) -> bool {
    forall|i: int, j: int| 0 <= i < j < deps.len() ==> #[trigger] deps[i].0@ != #[trigger] deps[j].0@
}

/// The first child slot of `children` whose name matches `name`.
pub open spec fn child_match(children: Seq<(String, usize)>, name: Seq<char>) -> Option<nat>
    decreases children.len(),
{
    if children.len() == 0 {
        None
    } else if caseless_eq(children[0].0@, name) {
        Some(children[0].1 as nat)
    } else {
        child_match(children.drop_first(), name)
    }
}

impl Graph {
    pub open spec fn nodes(&self) -> Map<nat, Node> {
        graph_nodes(self.inner)
    }

    pub open spec fn edges(&self) -> Map<nat, Edge> {
        graph_edges(self.inner)
    }

    pub open spec fn depth_of(&self, k: nat) -> nat {
        self.depth@[k]
    }

    pub open spec fn has_node(&self, k: nat) -> bool {
        self.nodes().contains_key(k)
    }

    /// Every child slot of `k` holds a node whose parent is `k`, under that
    /// node's package name.
    pub open spec fn slots_ok(&self, k: nat) -> bool {
        forall|i: int| 0 <= i < self.nodes()[k].children@.len() ==> {
            let (name, c) = #[trigger] self.nodes()[k].children@[i];
            &&& self.nodes()[c as nat].parent matches Some(p) && p as nat == k
            &&& name@ == self.nodes()[c as nat].package.name@
        }
    }

    /// Well-formedness: one root without a parent, every other node's parent
    /// present and one level closer to the root, every child slot and every
    /// dependency pointing at something present.
    pub open spec fn wf(&self) -> bool {
        &&& self.nodes().dom().finite()
        &&& self.edges().dom().finite()
        &&& self.nodes().dom().len() == self.node_count
        &&& self.edges().dom().len() == self.edge_count
        &&& self.has_node(self.root as nat)
        &&& self.nodes()[self.root as nat].parent is None
        &&& self.depth_of(self.root as nat) == 0
        &&& self.node_bound <= INDEX_LIMIT
        &&& self.edge_bound <= INDEX_LIMIT
        &&& forall|e: nat| #[trigger] self.edges().contains_key(e) ==> e < self.edge_bound
        &&& forall|k: nat| #[trigger] self.has_node(k) ==> k < self.node_bound
        &&& forall|k: nat| #[trigger] self.has_node(k) ==> keys_distinct(self.nodes()[k].children@)
        &&& forall|k: nat| #[trigger] self.has_node(k) ==> self.slots_ok(k)
        &&& forall|k: nat| #[trigger] self.has_node(k) ==> names_distinct(self.nodes()[k].dependencies@)
        &&& forall|k: nat| #[trigger] self.has_node(k) ==> {
            &&& k < INDEX_LIMIT
            &&& self.depth@.contains_key(k)
            &&& (k != self.root ==> {
                &&& self.nodes()[k].parent matches Some(p)
                &&& self.has_node(p as nat)
                &&& self.depth_of(k) == self.depth_of(p as nat) + 1
            })
            &&& forall|i: int| 0 <= i < self.nodes()[k].children@.len()
                ==> self.has_node(#[trigger] self.nodes()[k].children@[i].1 as nat)
            &&& forall|i: int| 0 <= i < self.nodes()[k].dependencies@.len()
                ==> self.edges().contains_key(#[trigger] self.nodes()[k].dependencies@[i].1 as nat)
        }
    }

    /// Ancestor-chain resolution: the child slot named `name` of `k`, else of
    /// its parent, and so on up to the root.
    pub open spec fn find_spec(&self, k: nat, name: Seq<char>) -> Option<nat>
        decreases self.depth_of(k),
    {
        if !self.has_node(k) {
            None
        } else {
            match child_match(self.nodes()[k].children@, name) {
                Some(c) => Some(c),
                None => match self.nodes()[k].parent {
                    Some(p) => if self.depth_of(p as nat) < self.depth_of(k) {
                        self.find_spec(p as nat, name)
                    } else {
                        None
                    },
                    None => None,
                },
            }
        }
    }

    /// The nodes that `find_spec` visits from `k`: `k`, its parent, ... the root.
    pub open spec fn ancestors(&self, k: nat) -> Seq<nat>
        decreases self.depth_of(k),
    {
        if !self.has_node(k) {
            Seq::empty()
        } else {
            match self.nodes()[k].parent {
                Some(p) => if self.depth_of(p as nat) < self.depth_of(k) {
                    seq![k] + self.ancestors(p as nat)
                } else {
                    seq![k]
                },
                None => seq![k],
            }
        }
    }

    /// A graph holding only a root node for `package`.
    pub fn new(package: Package) -> (r: Graph)
        ensures
            r.wf(),
            r.nodes().dom() == set![r.root as nat],
            r.nodes()[r.root as nat].package == package,
            r.nodes()[r.root as nat].children@.len() == 0,
            r.nodes()[r.root as nat].dependencies@.len() == 0,
            r.edges().dom().len() == 0,
    {
        let mut inner = arena_new();
        let root = arena_add_node(
            &mut inner,
            Node { package, parent: None, children: Vec::new(), dependencies: Vec::new() },
        );
        let ghost depth = map![root as nat => 0nat];
        let g = Graph { root, inner, node_count: 1, edge_count: 0, node_bound: root + 1, edge_bound: 0, depth: Ghost(depth) };
        assert(g.nodes().dom() =~= set![root as nat]);
        assert(g.edges().dom() =~= Set::<nat>::empty());
        g
    }

    pub fn node_count(&self) -> (r: usize)
        requires
            self.wf(),
        ensures
            r == self.nodes().dom().len(),
    {
        self.node_count
    }

    /// The node under index `k`; absent indices are a caller bug.
    pub fn node(&self, k: usize) -> (r: &Node)
        requires
            self.wf(),
            self.has_node(k as nat),
        ensures
            *r == self.nodes()[k as nat],
    {
        arena_node(&self.inner, k).unwrap()
    }

    /// Every node index once, in increasing order.
    pub fn node_indices(&self) -> (r: Vec<usize>)
        requires
            self.wf(),
        ensures
            forall|i: int| 0 <= i < r@.len() ==> self.has_node(#[trigger] r@[i] as nat),
            forall|k: nat| self.has_node(k) ==> exists|i: int| 0 <= i < r@.len() && #[trigger] r@[i] as nat == k,
            forall|i: int, j: int| 0 <= i < j < r@.len() ==> r@[i] < r@[j],
    {
        arena_node_indices(&self.inner)
    }

    /// Whether index `k` holds a node.
    pub fn has_node_exec(&self, k: usize) -> (r: bool)
        requires
            self.wf(),
            k < INDEX_LIMIT,
        ensures
            r == self.has_node(k as nat),
    {
        arena_node(&self.inner, k).is_some()
    }

    /// The edge under index `e`, if any.
    pub fn edge_at(&self, e: usize) -> (r: Option<&Edge>)
        requires
            self.wf(),
        ensures
            r.is_some() == self.edges().contains_key(e as nat),
            r matches Some(x) ==> *x == self.edges()[e as nat],
    {
        if e >= INDEX_LIMIT {
            return None;
        }
        arena_edge(&self.inner, e)
    }

    /// The edge under index `e`; absent indices are a caller bug.
    pub fn edge(&self, e: usize) -> (r: &Edge)
        requires
            self.wf(),
            self.edges().contains_key(e as nat),
        ensures
            *r == self.edges()[e as nat],
    {
        arena_edge(&self.inner, e).unwrap()
    }
}


/// `child_match` finds a slot whenever one of the slots matches.
pub proof fn lemma_child_match_some(children: Seq<(String, usize)>, name: Seq<char>, i: int)
    requires
        0 <= i < children.len(),
        caseless_eq(children[i].0@, name),
    ensures
        child_match(children, name) is Some,
    decreases children.len(),
{
    if !caseless_eq(children[0].0@, name) {
        lemma_child_match_some(children.drop_first(), name, i - 1);
    }
}

/// `child_match` finds the first slot that matches.
pub proof fn lemma_child_match_first(children: Seq<(String, usize)>, name: Seq<char>, j: int)
    requires
        0 <= j <= children.len(),
        j < children.len() ==> caseless_eq(children[j].0@, name),
        forall|i: int| 0 <= i < j ==> !caseless_eq(#[trigger] children[i].0@, name),
    ensures
        child_match(children, name) == if j < children.len() { Some(children[j].1 as nat) } else { None },
    decreases j,
{
    if j > 0 {
        assert forall|i: int| 0 <= i < j - 1 implies !caseless_eq(#[trigger] children.drop_first()[i].0@, name) by {
            assert(children.drop_first()[i] == children[i + 1]);
        }
        assert(!caseless_eq(children[0].0@, name));
        lemma_child_match_first(children.drop_first(), name, j - 1);
    }
}

/// `child_match` finds nothing only when no slot matches.
pub proof fn lemma_child_match_none(children: Seq<(String, usize)>, name: Seq<char>)
    requires
        child_match(children, name) is None,
    ensures
        forall|i: int| 0 <= i < children.len() ==> !caseless_eq(#[trigger] children[i].0@, name),
{
    assert forall|i: int| 0 <= i < children.len() implies !caseless_eq(#[trigger] children[i].0@, name) by {
        if caseless_eq(children[i].0@, name) {
            lemma_child_match_some(children, name, i);
        }
    }
}

/// The slot `child_match` finds is one of the slots.
pub proof fn lemma_child_match_in(children: Seq<(String, usize)>, name: Seq<char>)
    requires
        child_match(children, name) is Some,
    ensures
        exists|i: int| 0 <= i < children.len() && #[trigger] children[i].1 as nat == child_match(children, name).unwrap()
            && caseless_eq(children[i].0@, name),
    decreases children.len(),
{
    if !caseless_eq(children[0].0@, name) {
        lemma_child_match_in(children.drop_first(), name);
        let i = choose|i: int| 0 <= i < children.drop_first().len() && #[trigger] children.drop_first()[i].1 as nat == child_match(children, name).unwrap()
            && caseless_eq(children.drop_first()[i].0@, name);
        assert(children[i + 1].1 as nat == child_match(children, name).unwrap());
        assert(caseless_eq(children[i + 1].0@, name));
    } else {
        assert(children[0].1 as nat == child_match(children, name).unwrap());
    }
}

impl Graph {
    /// Walking from a node to the root visits exactly `depth + 1` nodes, and
    /// the walk ends at the root.
    pub proof fn lemma_ancestors_len(&self, k: nat)
        requires
            self.wf(),
            self.has_node(k),
        ensures
            self.ancestors(k).len() == self.depth_of(k) + 1,
            self.ancestors(k)[0] == k,
            self.ancestors(k).last() == self.root as nat,
            forall|i: int| 0 <= i < self.ancestors(k).len() ==> self.has_node(#[trigger] self.ancestors(k)[i]),
        decreases self.depth_of(k),
    {
        if k != self.root as nat {
            let p = self.nodes()[k].parent.unwrap() as nat;
            self.lemma_ancestors_len(p);
            assert forall|i: int| 0 <= i < self.ancestors(k).len() implies self.has_node(#[trigger] self.ancestors(k)[i]) by {
                if i > 0 {
                    assert(self.ancestors(k)[i] == self.ancestors(p)[i - 1]);
                }
            }
        } else {
            assert(self.depth_of(k) == 0);
        }
    }

    /// A name that no node on the way from `k` to the root holds a child
    /// under (in any letter case) is not found, and the lookup does not fail:
    /// the walk ends after the `depth(k) + 1` nodes of `ancestors(k)`.
    pub proof fn lemma_find_absent(&self, k: nat, name: Seq<char>)
        requires
            self.wf(),
            self.has_node(k),
            forall|i: int| 0 <= i < self.ancestors(k).len() ==> forall|j: int|
                0 <= j < self.nodes()[#[trigger] self.ancestors(k)[i]].children@.len()
                ==> !caseless_eq(#[trigger] self.nodes()[self.ancestors(k)[i]].children@[j].0@, name),
        ensures
            self.find_spec(k, name) is None,
            self.ancestors(k).len() == self.depth_of(k) + 1,
        decreases self.depth_of(k),
    {
        self.lemma_ancestors_len(k);
        assert(self.ancestors(k)[0] == k);
        if child_match(self.nodes()[k].children@, name) is Some {
            let ch = self.nodes()[k].children@;
            lemma_child_match_in(ch, name);
            let j = choose|j: int| 0 <= j < ch.len() && #[trigger] ch[j].1 as nat == child_match(ch, name).unwrap()
                && caseless_eq(ch[j].0@, name);
            assert(!caseless_eq(self.nodes()[self.ancestors(k)[0]].children@[j].0@, name));
        }
        if k != self.root as nat {
            let p = self.nodes()[k].parent.unwrap() as nat;
            assert forall|i: int| 0 <= i < self.ancestors(p).len() implies forall|j: int|
                0 <= j < self.nodes()[#[trigger] self.ancestors(p)[i]].children@.len()
                ==> !caseless_eq(#[trigger] self.nodes()[self.ancestors(p)[i]].children@[j].0@, name) by {
                assert(self.ancestors(p)[i] == self.ancestors(k)[i + 1]);
            }
            self.lemma_find_absent(p, name);
        }
    }

    /// A child installed under any ancestor of `k` (the node itself included)
    /// is found from `k` by every name that matches its own under case folding.
    pub proof fn lemma_find_caseless(&self, k: nat, i: int, j: int, name: Seq<char>)
        requires
            self.wf(),
            self.has_node(k),
            0 <= i < self.ancestors(k).len(),
            0 <= j < self.nodes()[self.ancestors(k)[i]].children@.len(),
            caseless_eq(self.nodes()[self.ancestors(k)[i]].children@[j].0@, name),
        ensures
            self.find_spec(k, name) is Some,
            self.has_node(self.find_spec(k, name).unwrap()),
        decreases self.depth_of(k),
    {
        self.lemma_ancestors_len(k);
        self.lemma_find_found(k, name);
        if child_match(self.nodes()[k].children@, name) is None {
            if i == 0 {
                lemma_child_match_some(self.nodes()[k].children@, name, j);
            }
            let p = self.nodes()[k].parent.unwrap() as nat;
            assert(self.ancestors(k)[i] == self.ancestors(p)[i - 1]);
            self.lemma_find_caseless(p, i - 1, j, name);
        }
    }

    /// Which child the lookup finds: the slot `j` of the ancestor `i` steps
    /// up from `k` (the node itself for `i == 0`), when its name matches
    /// `name` under case folding, no earlier slot of that ancestor matches, and
    /// no node on the way up to it has a matching slot. With the child names
    /// of a node distinct under case folding (`keys_distinct`), every query
    /// that matches a child's name finds that very child.
    pub proof fn lemma_find_exact(&self, k: nat, i: int, j: int, name: Seq<char>)
        requires
            self.wf(),
            self.has_node(k),
            0 <= i < self.ancestors(k).len(),
            0 <= j < self.nodes()[self.ancestors(k)[i]].children@.len(),
            caseless_eq(self.nodes()[self.ancestors(k)[i]].children@[j].0@, name),
            forall|m: int| 0 <= m < j ==> !caseless_eq(#[trigger] self.nodes()[self.ancestors(k)[i]].children@[m].0@, name),
            forall|m: int| 0 <= m < i ==> forall|x: int|
                0 <= x < self.nodes()[#[trigger] self.ancestors(k)[m]].children@.len()
                ==> !caseless_eq(#[trigger] self.nodes()[self.ancestors(k)[m]].children@[x].0@, name),
        ensures
            self.find_spec(k, name) == Some(self.nodes()[self.ancestors(k)[i]].children@[j].1 as nat),
        decreases self.depth_of(k),
    {
        self.lemma_ancestors_len(k);
        let ch = self.nodes()[k].children@;
        if i == 0 {
            lemma_child_match_first(ch, name, j);
        } else {
            assert(self.ancestors(k)[0] == k);
            assert forall|x: int| 0 <= x < ch.len() implies !caseless_eq(#[trigger] ch[x].0@, name) by {
                assert(self.ancestors(k)[0] == k);
            }
            lemma_child_match_first(ch, name, ch.len() as int);
            let p = self.nodes()[k].parent.unwrap() as nat;
            assert(k != self.root as nat);
            assert forall|m: int| 0 <= m < i - 1 implies forall|x: int|
                0 <= x < self.nodes()[#[trigger] self.ancestors(p)[m]].children@.len()
                ==> !caseless_eq(#[trigger] self.nodes()[self.ancestors(p)[m]].children@[x].0@, name) by {
                assert(self.ancestors(p)[m] == self.ancestors(k)[m + 1]);
            }
            assert(self.ancestors(p)[i - 1] == self.ancestors(k)[i]);
            self.lemma_find_exact(p, i - 1, j, name);
        }
    }

    /// Replaces the package of node `k`, keeping its place in the graph.
    pub fn set_package(&mut self, k: usize, package: Package)
        requires
            old(self).wf(),
            old(self).has_node(k as nat),
            package.name@ == old(self).nodes()[k as nat].package.name@,
        ensures
            final(self).wf(),
            final(self).root == old(self).root,
            final(self).depth == old(self).depth,
            final(self).nodes().dom() == old(self).nodes().dom(),
            final(self).nodes()[k as nat].package == package,
            final(self).nodes()[k as nat].parent == old(self).nodes()[k as nat].parent,
            final(self).nodes()[k as nat].children == old(self).nodes()[k as nat].children,
            final(self).nodes()[k as nat].dependencies == old(self).nodes()[k as nat].dependencies,
            forall|j: nat| j != k ==> #[trigger] final(self).nodes()[j] == old(self).nodes()[j],
            final(self).edges() == old(self).edges(),
    {
        let ghost old_nodes = self.nodes();
        let n = arena_node_mut(&mut self.inner, k);
        n.package = package;
        proof {
            assert(self.nodes().dom() =~= old_nodes.dom());
            assert forall|j: nat| #[trigger] self.has_node(j) implies {
                &&& j < INDEX_LIMIT
                &&& self.depth@.contains_key(j)
                &&& (j != self.root ==> {
                    &&& self.nodes()[j].parent matches Some(p)
                    &&& self.has_node(p as nat)
                    &&& self.depth_of(j) == self.depth_of(p as nat) + 1
                })
                &&& forall|i: int| 0 <= i < self.nodes()[j].children@.len()
                    ==> self.has_node(#[trigger] self.nodes()[j].children@[i].1 as nat)
                &&& forall|i: int| 0 <= i < self.nodes()[j].dependencies@.len()
                    ==> self.edges().contains_key(#[trigger] self.nodes()[j].dependencies@[i].1 as nat)
                &&& j < self.node_bound
                &&& keys_distinct(self.nodes()[j].children@)
                &&& self.slots_ok(j)
                &&& names_distinct(self.nodes()[j].dependencies@)
            } by {
                assert(old(self).has_node(j));
                assert(old(self).slots_ok(j));
                let ch = self.nodes()[j].children@;
                assert forall|i: int| 0 <= i < ch.len() implies {
                    let (name, c) = #[trigger] ch[i];
                    &&& self.nodes()[c as nat].parent matches Some(p) && p as nat == j
                    &&& name@ == self.nodes()[c as nat].package.name@
                } by {
                    assert(ch[i] == old_nodes[j].children@[i]);
                }
                assert forall|i: int| 0 <= i < self.nodes()[j].children@.len()
                    implies self.has_node(#[trigger] self.nodes()[j].children@[i].1 as nat) by {
                    assert(old(self).has_node(old_nodes[j].children@[i].1 as nat));
                }
                if j != self.root {
                    let p = old_nodes[j].parent.unwrap();
                    assert(old(self).has_node(p as nat));
                }
            }
        }
    }

    /// Whatever the lookup finds is a node of the graph.
    pub proof fn lemma_find_found(&self, k: nat, name: Seq<char>)
        requires
            self.wf(),
        ensures
            self.find_spec(k, name) matches Some(c) ==> self.has_node(c),
        decreases self.depth_of(k),
    {
        if self.has_node(k) {
            let ch = self.nodes()[k].children@;
            if child_match(ch, name) is Some {
                lemma_child_match_in(ch, name);
            } else if let Some(p) = self.nodes()[k].parent {
                if self.depth_of(p as nat) < self.depth_of(k) {
                    self.lemma_find_found(p as nat, name);
                }
            }
        }
    }

    /// Ancestor-chain resolution from `start`: the child slot named `name`
    /// (in any letter case) of `start`, else of its parent, and so on; `None`
    /// once the root has no such child either.
    pub fn find_by_name(&self, start: usize, name: &str) -> (r: Option<usize>)
        requires
            self.wf(),
        ensures
            r matches Some(c) ==> self.find_spec(start as nat, name@) == Some(c as nat) && self.has_node(c as nat),
            r is None ==> self.find_spec(start as nat, name@) is None,
    {
        proof { self.lemma_find_found(start as nat, name@); }
        if start >= INDEX_LIMIT {
            return None;
        }
        let mut cur: usize = start;
        loop
            invariant
                self.wf(),
                cur < INDEX_LIMIT,
                self.find_spec(start as nat, name@) == self.find_spec(cur as nat, name@),
                self.find_spec(start as nat, name@) matches Some(c) ==> self.has_node(c),
            decreases self.depth_of(cur as nat),
        {
            let node = match arena_node(&self.inner, cur) {
                Some(n) => n,
                None => return None,
            };
            let ghost ch = node.children@;
            let mut i: usize = 0;
            assert(ch.skip(0) =~= ch);
            while i < node.children.len()
                invariant
                    i <= ch.len(),
                    ch == node.children@,
                    self.has_node(cur as nat),
                    self.nodes()[cur as nat].children@ == ch,
                    self.find_spec(start as nat, name@) == self.find_spec(cur as nat, name@),
                    self.find_spec(start as nat, name@) matches Some(c) ==> self.has_node(c),
                    child_match(ch, name@) == child_match(ch.skip(i as int), name@),
                decreases ch.len() - i,
            {
                assert(ch.skip(i as int).drop_first() =~= ch.skip(i + 1));
                if names_match(node.children[i].0.as_str(), name) {
                    assert(ch.skip(i as int)[0] == ch[i as int]);
                    assert(child_match(ch.skip(i as int), name@) == Some(ch[i as int].1 as nat));
                    assert(self.nodes()[cur as nat].children@ == ch);
                    assert(self.find_spec(cur as nat, name@) == Some(ch[i as int].1 as nat));
                    return Some(node.children[i].1);
                }
                i = i + 1;
            }
            match node.parent {
                Some(p) => {
                    cur = p;
                },
                None => return None,
            }
        }
    }

    /// Installs a new node for `package` in the scope of `parent`, under the
    /// package's name, unless a child slot of `parent` already matches that
    /// name under case folding: then that slot's node is returned as `Err`
    /// and nothing changes.
    pub fn add_child(&mut self, parent: usize, package: Package) -> (r: Result<usize, usize>)
        requires
            old(self).wf(),
            old(self).has_node(parent as nat),
            old(self).node_count + 2 < INDEX_LIMIT,
        ensures
            final(self).wf(),
            match r {
                Err(c) => child_match(old(self).nodes()[parent as nat].children@, package.name@) == Some(c as nat)
                    && *final(self) == *old(self),
                Ok(c) => child_match(old(self).nodes()[parent as nat].children@, package.name@) is None
                    && !old(self).has_node(c as nat)
                    && final(self).root == old(self).root
                    && final(self).nodes().dom() == old(self).nodes().dom().insert(c as nat)
                    && final(self).nodes()[c as nat].package == package
                    && final(self).nodes()[c as nat].parent == Some(parent)
                    && final(self).nodes()[c as nat].children@.len() == 0
                    && final(self).nodes()[c as nat].dependencies@.len() == 0
                    && final(self).nodes()[parent as nat].package == old(self).nodes()[parent as nat].package
                    && final(self).nodes()[parent as nat].parent == old(self).nodes()[parent as nat].parent
                    && final(self).nodes()[parent as nat].dependencies == old(self).nodes()[parent as nat].dependencies
                    && final(self).nodes()[parent as nat].children@ == old(self).nodes()[parent as nat].children@.push((package.name, c))
                    && (forall|k: nat| k != c && k != parent ==> #[trigger] final(self).nodes()[k] == old(self).nodes()[k])
                    && final(self).edges() == old(self).edges(),
            },
    {
        let name = package.name.clone();
        match self.find_child(parent, name.as_str()) {
            Some(c) => Err(c),
            None => Ok(self.insert_child(parent, name, package)),
        }
    }

    /// The child slot of `k` whose name matches `name` under case folding.
    pub fn find_child(&self, k: usize, name: &str) -> (r: Option<usize>)
        requires
            self.wf(),
            self.has_node(k as nat),
        ensures
            match r {
                Some(c) => child_match(self.nodes()[k as nat].children@, name@) == Some(c as nat),
                None => child_match(self.nodes()[k as nat].children@, name@) is None,
            },
    {
        let node = self.node(k);
        let ghost ch = node.children@;
        let mut i: usize = 0;
        assert(ch.skip(0) =~= ch);
        while i < node.children.len()
            invariant
                i <= ch.len(),
                ch == node.children@,
                self.has_node(k as nat),
                self.nodes()[k as nat].children@ == ch,
                child_match(ch, name@) == child_match(ch.skip(i as int), name@),
            decreases ch.len() - i,
        {
            assert(ch.skip(i as int).drop_first() =~= ch.skip(i + 1));
            if names_match(node.children[i].0.as_str(), name) {
                assert(ch.skip(i as int)[0] == ch[i as int]);
                assert(child_match(ch.skip(i as int), name@) == Some(ch[i as int].1 as nat));
                return Some(node.children[i].1);
            }
            i = i + 1;
        }
        None
    }

    fn insert_child(&mut self, parent: usize, name: String, package: Package) -> (r: usize)
        requires
            old(self).wf(),
            old(self).has_node(parent as nat),
            old(self).node_count + 2 < INDEX_LIMIT,
            child_match(old(self).nodes()[parent as nat].children@, name@) is None,
            name@ == package.name@,
        ensures
            final(self).wf(),
            final(self).root == old(self).root,
            !old(self).has_node(r as nat),
            final(self).nodes().dom() == old(self).nodes().dom().insert(r as nat),
            final(self).nodes()[r as nat].package == package,
            final(self).nodes()[r as nat].parent == Some(parent),
            final(self).nodes()[r as nat].children@.len() == 0,
            final(self).nodes()[r as nat].dependencies@.len() == 0,
            final(self).nodes()[parent as nat].package == old(self).nodes()[parent as nat].package,
            final(self).nodes()[parent as nat].parent == old(self).nodes()[parent as nat].parent,
            final(self).nodes()[parent as nat].dependencies == old(self).nodes()[parent as nat].dependencies,
            final(self).nodes()[parent as nat].children@ == old(self).nodes()[parent as nat].children@.push((name, r)),
            forall|k: nat| k != r && k != parent ==> #[trigger] final(self).nodes()[k] == old(self).nodes()[k],
            final(self).edges() == old(self).edges(),
    {
        let ghost old_nodes = self.nodes();
        let r = arena_add_node(
            &mut self.inner,
            Node { package, parent: Some(parent), children: Vec::new(), dependencies: Vec::new() },
        );
        let pn = arena_node_mut(&mut self.inner, parent);
        pn.children.push((name, r));
        self.node_count = self.node_count + 1;
        if r >= self.node_bound {
            self.node_bound = r + 1;
        }
        let ghost d = self.depth@;
        self.depth = Ghost(d.insert(r as nat, d[parent as nat] + 1));
        proof {
            assert(self.nodes().dom() =~= old_nodes.dom().insert(r as nat));
            assert forall|k: nat| #[trigger] self.has_node(k) implies {
                &&& k < INDEX_LIMIT
                &&& self.depth@.contains_key(k)
                &&& (k != self.root ==> {
                    &&& self.nodes()[k].parent matches Some(p)
                    &&& self.has_node(p as nat)
                    &&& self.depth_of(k) == self.depth_of(p as nat) + 1
                })
                &&& forall|i: int| 0 <= i < self.nodes()[k].children@.len()
                    ==> self.has_node(#[trigger] self.nodes()[k].children@[i].1 as nat)
                &&& forall|i: int| 0 <= i < self.nodes()[k].dependencies@.len()
                    ==> self.edges().contains_key(#[trigger] self.nodes()[k].dependencies@[i].1 as nat)
            } by {
                if k != r as nat {
                    assert(old(self).has_node(k));
                    if k == parent as nat {
                        assert forall|i: int| 0 <= i < self.nodes()[k].children@.len()
                            implies self.has_node(#[trigger] self.nodes()[k].children@[i].1 as nat) by {
                            if i < old_nodes[k].children@.len() {
                                assert(self.nodes()[k].children@[i] == old_nodes[k].children@[i]);
                                assert(old(self).has_node(old_nodes[k].children@[i].1 as nat));
                            }
                        }
                    } else {
                        assert forall|i: int| 0 <= i < self.nodes()[k].children@.len()
                            implies self.has_node(#[trigger] self.nodes()[k].children@[i].1 as nat) by {
                            assert(old(self).has_node(old_nodes[k].children@[i].1 as nat));
                        }
                    }
                    if k != self.root {
                        let p = old_nodes[k].parent.unwrap();
                        assert(old(self).has_node(p as nat));
                    }
                }
            }
        }
        proof {
            let och = old_nodes[parent as nat].children@;
            lemma_child_match_none(och, name@);
            assert forall|k: nat| #[trigger] self.has_node(k) implies k < self.node_bound by {
                if k != r as nat {
                    assert(old(self).has_node(k));
                }
            }
            assert forall|k: nat| #[trigger] self.has_node(k) implies keys_distinct(self.nodes()[k].children@) by {
                if k != r as nat {
                    assert(old(self).has_node(k));
                    if k == parent as nat {
                        let ch = self.nodes()[k].children@;
                        assert forall|i: int, j: int| 0 <= i < j < ch.len() implies !caseless_eq(#[trigger] ch[i].0@, #[trigger] ch[j].0@) by {
                            assert(ch[i] == och[i]);
                            if j < och.len() {
                                assert(ch[j] == och[j]);
                            }
                        }
                    }
                }
            }
            assert forall|e: nat| #[trigger] self.edges().contains_key(e) implies e < self.edge_bound by {
                assert(old(self).edges().contains_key(e));
            }
            assert forall|k: nat| #[trigger] self.has_node(k) implies self.slots_ok(k)
                && names_distinct(self.nodes()[k].dependencies@) by {
                if k != r as nat {
                    assert(old(self).has_node(k));
                    assert(old(self).slots_ok(k));
                    let ch = self.nodes()[k].children@;
                    assert forall|i: int| 0 <= i < ch.len() implies {
                        let (name, c) = #[trigger] ch[i];
                        &&& self.nodes()[c as nat].parent matches Some(p) && p as nat == k
                        &&& name@ == self.nodes()[c as nat].package.name@
                    } by {
                        if k != parent as nat || i < och.len() {
                            assert(ch[i] == old_nodes[k].children@[i]);
                            let c = ch[i].1 as nat;
                            assert(old(self).has_node(c));
                            assert(c != r as nat);
                        }
                    }
                }
            }
        }
        r
    }

    /// Records that `from` requires the package installed at `to`, under
    /// `name`, unless `from` already declares a dependency of that name: then
    /// its edge is returned as `Err` and nothing changes.
    pub fn add_dependency(&mut self, from: usize, to: usize, name: String, edge: Edge) -> (r: Result<usize, usize>)
        requires
            old(self).wf(),
            old(self).has_node(from as nat),
            old(self).has_node(to as nat),
            old(self).edge_count + 2 < INDEX_LIMIT,
        ensures
            final(self).wf(),
            match r {
                Err(e) => *final(self) == *old(self) && exists|i: int|
                    0 <= i < old(self).nodes()[from as nat].dependencies@.len()
                    && #[trigger] old(self).nodes()[from as nat].dependencies@[i].1 == e
                    && old(self).nodes()[from as nat].dependencies@[i].0@ == name@,
                Ok(e) => (forall|i: int| 0 <= i < old(self).nodes()[from as nat].dependencies@.len()
                        ==> #[trigger] old(self).nodes()[from as nat].dependencies@[i].0@ != name@)
                    && final(self).root == old(self).root
                    && final(self).depth == old(self).depth
                    && !old(self).edges().contains_key(e as nat)
                    && final(self).edges() == old(self).edges().insert(e as nat, edge)
                    && final(self).nodes().dom() == old(self).nodes().dom()
                    && final(self).nodes()[from as nat].package == old(self).nodes()[from as nat].package
                    && final(self).nodes()[from as nat].parent == old(self).nodes()[from as nat].parent
                    && final(self).nodes()[from as nat].children == old(self).nodes()[from as nat].children
                    && final(self).nodes()[from as nat].dependencies@ == old(self).nodes()[from as nat].dependencies@.push((name, e))
                    && (forall|k: nat| k != from ==> #[trigger] final(self).nodes()[k] == old(self).nodes()[k]),
            },
    {
        match self.find_dependency(from, name.as_str()) {
            Some(e) => Err(e),
            None => Ok(self.insert_dependency(from, to, name, edge)),
        }
    }

    /// The edge of the dependency that `k` declares under `name`, if any.
    pub fn find_dependency(&self, k: usize, name: &str) -> (r: Option<usize>)
        requires
            self.wf(),
            self.has_node(k as nat),
        ensures
            match r {
                Some(e) => exists|i: int| 0 <= i < self.nodes()[k as nat].dependencies@.len()
                    && #[trigger] self.nodes()[k as nat].dependencies@[i].1 == e
                    && self.nodes()[k as nat].dependencies@[i].0@ == name@,
                None => forall|i: int| 0 <= i < self.nodes()[k as nat].dependencies@.len()
                    ==> #[trigger] self.nodes()[k as nat].dependencies@[i].0@ != name@,
            },
    {
        let node = self.node(k);
        let mut i: usize = 0;
        while i < node.dependencies.len()
            invariant
                i <= node.dependencies@.len(),
                *node == self.nodes()[k as nat],
                forall|j: int| 0 <= j < i ==> #[trigger] node.dependencies@[j].0@ != name@,
            decreases node.dependencies@.len() - i,
        {
            if str_eq(node.dependencies[i].0.as_str(), name) {
                return Some(node.dependencies[i].1);
            }
            i = i + 1;
        }
        None
    }

    fn insert_dependency(&mut self, from: usize, to: usize, name: String, edge: Edge) -> (r: usize)
        requires
            old(self).wf(),
            old(self).has_node(from as nat),
            old(self).has_node(to as nat),
            old(self).edge_count + 2 < INDEX_LIMIT,
            forall|i: int| 0 <= i < old(self).nodes()[from as nat].dependencies@.len()
                ==> #[trigger] old(self).nodes()[from as nat].dependencies@[i].0@ != name@,
        ensures
            final(self).wf(),
            final(self).root == old(self).root,
            final(self).depth == old(self).depth,
            !old(self).edges().contains_key(r as nat),
            final(self).edges() == old(self).edges().insert(r as nat, edge),
            final(self).nodes().dom() == old(self).nodes().dom(),
            final(self).nodes()[from as nat].package == old(self).nodes()[from as nat].package,
            final(self).nodes()[from as nat].parent == old(self).nodes()[from as nat].parent,
            final(self).nodes()[from as nat].children == old(self).nodes()[from as nat].children,
            final(self).nodes()[from as nat].dependencies@ == old(self).nodes()[from as nat].dependencies@.push((name, r)),
            forall|k: nat| k != from ==> #[trigger] final(self).nodes()[k] == old(self).nodes()[k],
    {
        let ghost old_nodes = self.nodes();
        let ghost old_edges = self.edges();
        let r = arena_add_edge(&mut self.inner, from, to, edge);
        let pn = arena_node_mut(&mut self.inner, from);
        pn.dependencies.push((name, r));
        self.edge_count = self.edge_count + 1;
        if r >= self.edge_bound {
            self.edge_bound = r + 1;
        }
        proof {
            assert(self.nodes().dom() =~= old_nodes.dom());
            assert(self.edges().dom() =~= old_edges.dom().insert(r as nat));
            assert forall|k: nat| #[trigger] self.has_node(k) implies {
                &&& k < INDEX_LIMIT
                &&& self.depth@.contains_key(k)
                &&& (k != self.root ==> {
                    &&& self.nodes()[k].parent matches Some(p)
                    &&& self.has_node(p as nat)
                    &&& self.depth_of(k) == self.depth_of(p as nat) + 1
                })
                &&& forall|i: int| 0 <= i < self.nodes()[k].children@.len()
                    ==> self.has_node(#[trigger] self.nodes()[k].children@[i].1 as nat)
                &&& forall|i: int| 0 <= i < self.nodes()[k].dependencies@.len()
                    ==> self.edges().contains_key(#[trigger] self.nodes()[k].dependencies@[i].1 as nat)
            } by {
                assert(old(self).has_node(k));
                assert forall|i: int| 0 <= i < self.nodes()[k].children@.len()
                    implies self.has_node(#[trigger] self.nodes()[k].children@[i].1 as nat) by {
                    assert(old(self).has_node(old_nodes[k].children@[i].1 as nat));
                }
                assert forall|i: int| 0 <= i < self.nodes()[k].dependencies@.len()
                    implies self.edges().contains_key(#[trigger] self.nodes()[k].dependencies@[i].1 as nat) by {
                    if k != from as nat || i < old_nodes[k].dependencies@.len() {
                        assert(self.nodes()[k].dependencies@[i] == old_nodes[k].dependencies@[i]);
                        assert(old_edges.contains_key(old_nodes[k].dependencies@[i].1 as nat));
                    }
                }
                if k != self.root {
                    let p = old_nodes[k].parent.unwrap();
                    assert(old(self).has_node(p as nat));
                }
            }
        }
        proof {
            assert forall|k: nat| #[trigger] self.has_node(k) implies k < self.node_bound by {
                assert(old(self).has_node(k));
            }
            assert forall|k: nat| #[trigger] self.has_node(k) implies keys_distinct(self.nodes()[k].children@) by {
                assert(old(self).has_node(k));
            }
            assert forall|k: nat| #[trigger] self.has_node(k) implies self.slots_ok(k)
                && names_distinct(self.nodes()[k].dependencies@) by {
                assert(old(self).has_node(k));
                assert(old(self).slots_ok(k));
                let ch = self.nodes()[k].children@;
                assert forall|i: int| 0 <= i < ch.len() implies {
                    let (name, c) = #[trigger] ch[i];
                    &&& self.nodes()[c as nat].parent matches Some(p) && p as nat == k
                    &&& name@ == self.nodes()[c as nat].package.name@
                } by {
                    assert(ch[i] == old_nodes[k].children@[i]);
                }
                if k == from as nat {
                    let d = self.nodes()[k].dependencies@;
                    let od = old_nodes[k].dependencies@;
                    assert forall|i: int, j: int| 0 <= i < j < d.len() implies #[trigger] d[i].0@ != #[trigger] d[j].0@ by {
                        assert(d[i] == od[i]);
                        if j < od.len() {
                            assert(d[j] == od[j]);
                        }
                    }
                }
            }
            assert forall|e: nat| #[trigger] self.edges().contains_key(e) implies e < self.edge_bound by {
                if e != r as nat {
                    assert(old(self).edges().contains_key(e));
                }
            }
        }
        r
    }
}

} // verus!
