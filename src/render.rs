use vstd::prelude::*;
use petgraph::dot::Dot;
use crate::graph::{Arena, Graph, INDEX_LIMIT};
use crate::lock::{doc_path, join_with, joined, names_view};
use crate::package::{descriptor_text, requested_text};

verus! {

/// The text of petgraph's Graphviz export of a dependency arena whose node
/// under index `i` is labelled `node_labels[i]` and whose edge under index
/// `e` is labelled `edge_labels[e]`.
pub uninterp spec fn dot_of(g: Arena, node_labels: Seq<Seq<char>>, edge_labels: Seq<Seq<char>>) -> Seq<char>;

/// The install location shown for node `k`: its lock-document path names
/// (from just below the root; the root shows its own name) joined with
/// `/node_modules/`.
pub open spec fn nested_path(g: Graph, k: nat) -> Seq<char> {
    joined(doc_path(g, k, k == g.root as nat), "/node_modules/"@)
}

/// The label of node `k`: its resolution descriptor, ` @ `, its install location.
pub open spec fn label_text(g: Graph, k: nat) -> Seq<char> {
    descriptor_text(g.nodes()[k].package.resolved) + " @ "@ + nested_path(g, k)
}

/// Node labels by node index; unused indices get an empty label.
pub open spec fn node_labels(g: Graph) -> Seq<Seq<char>> {
    Seq::new(g.node_bound as nat, |i: int| if g.has_node(i as nat) { label_text(g, i as nat) } else { Seq::empty() })
}

/// Edge labels by edge index, the requested specifier; unused indices get
/// an empty label.
pub open spec fn edge_labels(g: Graph) -> Seq<Seq<char>> {
    Seq::new(
        g.edge_bound as nat,
        |i: int| if g.edges().contains_key(i as nat) { requested_text(g.edges()[i as nat].requested) } else { Seq::empty() },
    )
}

/// Relies on `StableGraph::map` and `petgraph::dot::Dot`'s `Debug` output:
/// the Graphviz text of the graph with each node and edge labelled from the
/// vectors by index.
#[verifier::external_body]
fn dot_render(g: &Arena, node_labels: &Vec<String>, edge_labels: &Vec<String>) -> (r: String)
    requires
        forall|k: nat| graph_has_node(*g, k) ==> k < node_labels@.len(),
        forall|e: nat| graph_has_edge(*g, e) ==> e < edge_labels@.len(),
    ensures
        r@ == dot_of(*g, names_view(node_labels@), names_view(edge_labels@)),
{
    let labelled = g.map(|i, _| node_labels[i.index()].clone(), |e, _| edge_labels[e.index()].clone());
    format!("{:?}", Dot::new(&labelled))
}

pub open spec fn graph_has_node(g: Arena, k: nat) -> bool {
    crate::graph::graph_nodes(g).contains_key(k)
}

pub open spec fn graph_has_edge(g: Arena, e: nat) -> bool {
    crate::graph::graph_edges(g).contains_key(e)
}

impl Graph {
    /// The install location shown for node `k` in the graph export.
    pub fn nested_path(&self, k: usize) -> (r: String)
        requires
            self.wf(),
            self.has_node(k as nat),
        ensures
            r@ == nested_path(*self, k as nat),
    {
        let names = if k == self.root {
            let mut p: Vec<String> = Vec::new();
            p.push(self.node(k).package.name.clone());
            assert(names_view(p@) =~= doc_path(*self, k as nat, true));
            p
        } else {
            self.install_path_names(k)
        };
        join_with(&names, "/node_modules/")
    }

    /// The label of node `k` in the graph export: its resolution descriptor,
    /// ` @ `, and its install location.
    pub fn node_label(&self, k: usize) -> (r: String)
        requires
            self.wf(),
            self.has_node(k as nat),
        ensures
            r@ == label_text(*self, k as nat),
    {
        let node = self.node(k);
        let mut out = node.package.resolved.descriptor();
        out.append(" @ ");
        let path = self.nested_path(k);
        out.append(path.as_str());
        out
    }

    /// A Graphviz rendering of the graph, for diagnostics: each node labelled
    /// by `label_text`, each edge by its requested specifier.
    pub fn render(&self) -> (r: String)
        requires
            self.wf(),
        ensures
            r@ == dot_of(self.inner, node_labels(*self), edge_labels(*self)),
    {
        let mut nl: Vec<String> = Vec::new();
        let mut i: usize = 0;
        while i < self.node_bound
            invariant
                self.wf(),
                i <= self.node_bound,
                names_view(nl@) == node_labels(*self).take(i as int),
            decreases self.node_bound - i,
        {
            let ghost before = nl@;
            let label = if i < INDEX_LIMIT && self.has_node_exec(i) { self.node_label(i) } else { String::new() };
            nl.push(label);
            assert(names_view(nl@) =~= node_labels(*self).take(i + 1)) by {
                assert(names_view(nl@) =~= names_view(before).push(label@));
            }
            i = i + 1;
        }
        let mut el: Vec<String> = Vec::new();
        let mut e: usize = 0;
        while e < self.edge_bound
            invariant
                self.wf(),
                e <= self.edge_bound,
                names_view(el@) == edge_labels(*self).take(e as int),
            decreases self.edge_bound - e,
        {
            let ghost before = el@;
            let label = match self.edge_at(e) {
                Some(edge) => edge.requested.requested(),
                None => String::new(),
            };
            el.push(label);
            assert(names_view(el@) =~= edge_labels(*self).take(e + 1)) by {
                assert(names_view(el@) =~= names_view(before).push(label@));
            }
            e = e + 1;
        }
        assert(node_labels(*self).take(self.node_bound as int) =~= node_labels(*self));
        assert(edge_labels(*self).take(self.edge_bound as int) =~= edge_labels(*self));
        assert(nl@.len() == names_view(nl@).len());
        assert(el@.len() == names_view(el@).len());
        assert forall|k: nat| graph_has_node(self.inner, k) implies k < nl@.len() by {
            assert(self.has_node(k));
        }
        assert forall|x: nat| graph_has_edge(self.inner, x) implies x < el@.len() by {
            assert(self.edges().contains_key(x));
        }
        dot_render(&self.inner, &nl, &el)
    }
}

} // verus!
