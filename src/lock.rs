use vstd::prelude::*;
use kdl::{KdlDocument, KdlNode};
use crate::graph::{Graph, INDEX_LIMIT};
use crate::order::{
    distinct_indices, holds_key, key_lt, lemma_lex_irreflexive, lemma_sorted_unique, lex_lt, same_key, sort_keys,
    sorted_keys, strictly_sorted, SortKey,
};
use crate::package::{descriptor_text, opt_view, requested_text, DepType, PackageResolution};

verus! {

/// An argument of a document node.
#[derive(Debug, Clone, PartialEq, Eq)]
pub enum DocValue {
    Int(i64),
    Str(String),
}

/// A node of a structured text document: a name, its arguments and,
/// optionally, a block of child nodes.
#[derive(Debug)]
pub struct DocNode {
    pub name: String,
    pub args: Vec<DocValue>,
    pub children: Option<Vec<DocNode>>,
}

pub ghost enum ArgView {
    Int(int),
    Str(Seq<char>),
}

/// The content of a document node, as text.
pub ghost struct Tree {
    pub name: Seq<char>,
    pub args: Seq<ArgView>,
    pub children: Option<Seq<Tree>>,
}

pub open spec fn arg_view(v: DocValue) -> ArgView {
    match v {
        DocValue::Int(i) => ArgView::Int(i as int),
        DocValue::Str(s) => ArgView::Str(s@),
    }
}

pub open spec fn args_view(a: Seq<DocValue>) -> Seq<ArgView> {
    a.map_values(|v: DocValue| arg_view(v))
}

/// A node seen as a leaf.
pub open spec fn view0(d: DocNode) -> Tree {
    Tree { name: d.name@, args: args_view(d.args@), children: None }
}

/// A node seen down to its children.
pub open spec fn view1(d: DocNode) -> Tree {
    Tree {
        name: d.name@,
        args: args_view(d.args@),
        children: match d.children {
            Some(c) => Some(c@.map_values(|x: DocNode| view0(x))),
            None => None,
        },
    }
}

/// A node seen down to its grandchildren.
pub open spec fn view2(d: DocNode) -> Tree {
    Tree {
        name: d.name@,
        args: args_view(d.args@),
        children: match d.children {
            Some(c) => Some(c@.map_values(|x: DocNode| view1(x))),
            None => None,
        },
    }
}

/// A node seen down to three levels below it.
pub open spec fn view3(d: DocNode) -> Tree {
    Tree {
        name: d.name@,
        args: args_view(d.args@),
        children: match d.children {
            Some(c) => Some(c@.map_values(|x: DocNode| view2(x))),
            None => None,
        },
    }
}

pub open spec fn leaf(name: Seq<char>, args: Seq<ArgView>) -> Tree {
    Tree { name, args, children: None }
}

pub open spec fn str_args(s: Seq<Seq<char>>) -> Seq<ArgView> {
    s.map_values(|x: Seq<char>| ArgView::Str(x))
}

pub open spec fn dep_rank(t: DepType) -> u8 {
    match t {
        DepType::Prod => 0,
        DepType::Dev => 1,
        DepType::Peer => 2,
        DepType::Opt => 3,
    }
}

/// The section that holds the dependencies of a rank.
pub open spec fn section_title(rank: u8) -> Seq<char> {
    if rank == 0 {
        "dependencies"@
    } else if rank == 1 {
        "devDependencies"@
    } else if rank == 2 {
        "peerDependencies"@
    } else {
        "optionalDependencies"@
    }
}

/// The package names from just below the root down to `k`: the node's
/// nested install location.
pub open spec fn install_path(g: Graph, k: nat) -> Seq<Seq<char>>
    decreases g.depth_of(k),
{
    if !g.has_node(k) || k == g.root as nat {
        Seq::empty()
    } else {
        match g.nodes()[k].parent {
            Some(p) => if g.depth_of(p as nat) < g.depth_of(k) {
                install_path(g, p as nat).push(g.nodes()[k].package.name@)
            } else {
                Seq::empty()
            },
            None => Seq::empty(),
        }
    }
}

/// The path names a lock entry carries: the root names itself.
pub open spec fn doc_path(g: Graph, k: nat, is_root: bool) -> Seq<Seq<char>> {
    if is_root {
        seq![g.nodes()[k].package.name@]
    } else {
        install_path(g, k)
    }
}

/// Path names joined with `/`.
pub open spec fn path_text(p: Seq<Seq<char>>) -> Seq<char> {
    joined(p, seq!['/'])
}

/// Names joined with the separator `sep`.
pub open spec fn joined(p: Seq<Seq<char>>, sep: Seq<char>) -> Seq<char>
    decreases p.len(),
{
    if p.len() == 0 {
        Seq::empty()
    } else if p.len() == 1 {
        p[0]
    } else {
        joined(p.drop_last(), sep) + sep + p.last()
    }
}

/// `s` lists the declared dependencies of `k`, each once, in increasing
/// order of (kind, name, specifier); `index` is the position in the node's list.
pub open spec fn dep_order(g: Graph, k: nat, s: Seq<SortKey>) -> bool {
    let deps = g.nodes()[k].dependencies@;
    &&& sorted_keys(s)
    &&& strictly_sorted(s)
    &&& distinct_indices(s)
    &&& s.len() == deps.len()
    &&& forall|j: int| 0 <= j < s.len() ==> {
        let i = #[trigger] s[j].index as int;
        &&& 0 <= i < deps.len()
        &&& s[j].rank == dep_rank(g.edges()[deps[i].1 as nat].dep_type)
        &&& s[j].text@ == deps[i].0@
        &&& s[j].extra@ == requested_text(g.edges()[deps[i].1 as nat].requested)
    }
    &&& forall|i: int| 0 <= i < deps.len() ==> #[trigger] listed(s, i)
}

/// Some key of `s` carries the index `i`.
pub open spec fn listed(s: Seq<SortKey>, i: int) -> bool {
    exists|j: int| 0 <= j < s.len() && #[trigger] s[j].index == i
}

/// `s` lists every node but the root once, in increasing order of install
/// path text (then of node index).
pub open spec fn node_order(g: Graph, s: Seq<SortKey>) -> bool {
    &&& sorted_keys(s)
    &&& strictly_sorted(s)
    &&& distinct_indices(s)
    &&& s.len() + 1 == g.nodes().dom().len()
    &&& forall|j: int| 0 <= j < s.len() ==> {
        let k = #[trigger] s[j].index as nat;
        &&& g.has_node(k)
        &&& k != g.root as nat
        &&& s[j].rank == 0
        &&& s[j].text@ == path_text(install_path(g, k))
        &&& s[j].extra@.len() == 0
    }
    &&& forall|k: nat| g.has_node(k) && k != g.root as nat ==> #[trigger] listed(s, k as int)
}

/// The entries of the section of `rank`, in the order of `s`.
pub open spec fn of_rank(s: Seq<SortKey>, rank: u8) -> Seq<Tree>
    decreases s.len(),
{
    if s.len() == 0 {
        Seq::empty()
    } else {
        let d = s.last();
        let rest = of_rank(s.drop_last(), rank);
        if d.rank == rank {
            rest.push(leaf(d.text@, seq![ArgView::Str(d.extra@)]))
        } else {
            rest
        }
    }
}

pub open spec fn section(s: Seq<SortKey>, rank: u8) -> Seq<Tree> {
    let e = of_rank(s, rank);
    if e.len() == 0 {
        Seq::empty()
    } else {
        seq![Tree { name: section_title(rank), args: Seq::empty(), children: Some(e) }]
    }
}

/// The dependency sections in kind order, each only where it has entries.
pub open spec fn sections(s: Seq<SortKey>) -> Seq<Tree> {
    section(s, 0) + section(s, 1) + section(s, 2) + section(s, 3)
}

/// The `version`, `resolved` and `integrity` entries of a package.
pub open spec fn props(g: Graph, k: nat, is_root: bool) -> Seq<Tree> {
    let r = g.nodes()[k].package.resolved;
    let version = match r {
        PackageResolution::Registry { version, .. } => seq![leaf("version"@, seq![ArgView::Str(version@)])],
        _ => Seq::empty(),
    };
    let resolved = if is_root {
        Seq::empty()
    } else {
        seq![leaf("resolved"@, seq![ArgView::Str(descriptor_text(r))])]
    };
    let integrity = match r {
        PackageResolution::Registry { integrity: Some(i), .. } => if is_root {
            Seq::empty()
        } else {
            seq![leaf("integrity"@, seq![ArgView::Str(i@)])]
        },
        _ => Seq::empty(),
    };
    version + resolved + integrity
}

/// The lock entry of node `k`, its dependencies taken in the order `s`.
pub open spec fn package_tree(g: Graph, k: nat, is_root: bool, s: Seq<SortKey>) -> Tree {
    let c = props(g, k, is_root) + sections(s);
    Tree {
        name: if is_root { "root"@ } else { "dep"@ },
        args: str_args(doc_path(g, k, is_root)),
        children: if c.len() == 0 { None } else { Some(c) },
    }
}

/// `d` is the lock document of `g`: a version marker, then the packages
/// section with the root entry first and every other node after it in
/// install-path order.
pub open spec fn is_lock_document(g: Graph, d: Seq<Tree>) -> bool {
    &&& d.len() == 2
    &&& d[0] == leaf("lockfile-version"@, seq![ArgView::Int(1)])
    &&& d[1].name == "packages"@
    &&& d[1].args.len() == 0
    &&& d[1].children matches Some(ps) && exists|order: Seq<SortKey>| {
        &&& #[trigger] node_order(g, order)
        &&& ps.len() == order.len() + 1
        &&& is_entry(g, g.root as nat, true, ps[0])
        &&& forall|j: int| 0 <= j < order.len() ==> #[trigger] is_entry(g, order[j].index as nat, false, ps[j + 1])
    }
}

/// `t` is the lock entry of node `k`, its dependencies in some order that
/// `dep_order` allows.
pub open spec fn is_entry(g: Graph, k: nat, is_root: bool, t: Tree) -> bool {
    exists|s: Seq<SortKey>| dep_order(g, k, s) && t == package_tree(g, k, is_root, s)
}

/// The structured document that a KDL document is built from, node for node.
pub uninterp spec fn kdl_document_of(d: Seq<Tree>) -> KdlDocument;

/// What KDL's canonical formatting makes of a document.
pub uninterp spec fn kdl_formatted(d: KdlDocument) -> KdlDocument;

#[verifier::external_type_specification]
#[verifier::external_body]
pub struct ExKdlDocument(KdlDocument);

/// Relies on `KdlNode::new`, `KdlNode::push` and `KdlNode::set_children`:
/// one KDL node per document node, with the same name, arguments and children.
#[verifier::external_body]
fn kdl_document(nodes: &Vec<DocNode>) -> (r: KdlDocument)
    requires
        flats3(nodes@),
    ensures
        r == kdl_document_of(nodes@.map_values(|x: DocNode| view3(x))),
{
    let mut doc = KdlDocument::new();
    for n in nodes {
        let mut node = KdlNode::new(n.name.as_str());
        for a in &n.args {
            match a {
                DocValue::Int(i) => node.push(*i),
                DocValue::Str(s) => node.push(s.clone()),
            }
        }
        if let Some(c) = &n.children {
            node.set_children(kdl_document(c));
        }
        doc.nodes_mut().push(node);
    }
    doc
}

/// Relies on `KdlDocument::fmt`: the document in KDL's canonical formatting.
/// It panics on leading or trailing text that is not whitespace or comments;
/// a document built node by node has none, which `requires` states.
#[verifier::external_body]
fn kdl_format(d: &mut KdlDocument)
    requires
        exists|t: Seq<Tree>| *old(d) == kdl_document_of(t),
    ensures
        *final(d) == kdl_formatted(*old(d)),
{
    d.fmt();
}


pub open spec fn names_view(v: Seq<String>) -> Seq<Seq<char>> {
    v.map_values(|x: String| x@)
}

/// Joins path names with `/`.
pub fn join_path(p: &Vec<String>) -> (r: String)
    ensures
        r@ == path_text(names_view(p@)),
{
    proof { reveal_strlit("/"); }
    assert("/"@ =~= seq!['/']);
    join_with(p, "/")
}

/// Joins names with the separator `sep`.
pub fn join_with(p: &Vec<String>, sep: &str) -> (r: String)
    ensures
        r@ == joined(names_view(p@), sep@),
{
    let mut out = String::new();
    let mut i: usize = 0;
    while i < p.len()
        invariant
            i <= p@.len(),
            out@ == joined(names_view(p@.take(i as int)), sep@),
        decreases p@.len() - i,
    {
        let ghost before = names_view(p@.take(i as int));
        assert(names_view(p@.take(i + 1)).drop_last() =~= before);
        if i > 0 {
            out.append(sep);
        } else {
            assert(before.len() == 0);
        }
        out.append(p[i].as_str());
        i = i + 1;
        proof {
            let now = names_view(p@.take(i as int));
            assert(now.last() == p@[i - 1]@);
            assert(out@ =~= joined(now, sep@));
        }
    }
    assert(p@.take(p@.len() as int) =~= p@);
    out
}

impl Graph {
    /// The package names from just below the root down to `k`.
    pub fn install_path_names(&self, k: usize) -> (r: Vec<String>)
        requires
            self.wf(),
            self.has_node(k as nat),
        ensures
            names_view(r@) == install_path(*self, k as nat),
        decreases self.depth_of(k as nat),
    {
        if k == self.root {
            let r: Vec<String> = Vec::new();
            assert(names_view(r@) =~= install_path(*self, k as nat));
            return r;
        }
        let node = self.node(k);
        let p = node.parent.unwrap();
        let mut r = self.install_path_names(p);
        let ghost before = r@;
        r.push(node.package.name.clone());
        assert(names_view(r@) =~= names_view(before).push(node.package.name@));
        r
    }

    /// The declared dependencies of `k` as sort keys, in increasing order.
    pub fn dependency_keys(&self, k: usize) -> (r: Vec<SortKey>)
        requires
            self.wf(),
            self.has_node(k as nat),
        ensures
            dep_order(*self, k as nat, r@),
    {
        broadcast use vstd::seq_lib::group_to_multiset_ensures;
        let node = self.node(k);
        let ghost deps = node.dependencies@;
        let mut keys: Vec<SortKey> = Vec::new();
        let mut i: usize = 0;
        while i < node.dependencies.len()
            invariant
                self.wf(),
                self.has_node(k as nat),
                *node == self.nodes()[k as nat],
                deps == node.dependencies@,
                i <= deps.len(),
                keys@.len() == i,
                forall|j: int| 0 <= j < i ==> {
                    &&& (#[trigger] keys@[j]).index == j
                    &&& keys@[j].rank == dep_rank(self.edges()[deps[j].1 as nat].dep_type)
                    &&& keys@[j].text@ == deps[j].0@
                    &&& keys@[j].extra@ == requested_text(self.edges()[deps[j].1 as nat].requested)
                },
            decreases deps.len() - i,
        {
            let (name, e) = &node.dependencies[i];
            assert(self.edges().contains_key(deps[i as int].1 as nat));
            let edge = self.edge(*e);
            let rank: u8 = match edge.dep_type {
                DepType::Prod => 0,
                DepType::Dev => 1,
                DepType::Peer => 2,
                DepType::Opt => 3,
            };
            keys.push(SortKey { rank, text: name.clone(), extra: edge.requested.requested(), index: i });
            i = i + 1;
        }
        let ghost unsorted = keys@;
        assert(distinct_indices(unsorted));
        let r = sort_keys(keys);
        proof {
            assert forall|j: int| 0 <= j < r@.len() implies unsorted.contains(#[trigger] r@[j]) by {
                assert(r@.contains(r@[j]));
                assert(r@.to_multiset().count(r@[j]) > 0);
            }
            assert forall|i: int| 0 <= i < deps.len() implies #[trigger] listed(r@, i) by {
                assert(unsorted.contains(unsorted[i]));
                assert(unsorted.to_multiset().count(unsorted[i]) > 0);
                assert(r@.contains(unsorted[i]));
                let j = choose|j: int| 0 <= j < r@.len() && r@[j] == unsorted[i];
                assert(r@[j].index == i);
            }
        }
        r
    }
}


/// No node of `s` has children.
pub open spec fn leaves(s: Seq<DocNode>) -> bool {
    forall|i: int| 0 <= i < s.len() ==> (#[trigger] s[i]).children is None
}

/// The children of `d`, if any, have no children.
pub open spec fn flat1(d: DocNode) -> bool {
    d.children matches Some(c) ==> leaves(c@)
}

pub open spec fn flats1(s: Seq<DocNode>) -> bool {
    forall|i: int| 0 <= i < s.len() ==> flat1(#[trigger] s[i])
}

/// `d` has nothing more than two levels below it.
pub open spec fn flat2(d: DocNode) -> bool {
    d.children matches Some(c) ==> flats1(c@)
}

pub open spec fn flats2(s: Seq<DocNode>) -> bool {
    forall|i: int| 0 <= i < s.len() ==> flat2(#[trigger] s[i])
}

/// `d` has nothing more than three levels below it: all that `view3` sees.
pub open spec fn flat3(d: DocNode) -> bool {
    d.children matches Some(c) ==> flats2(c@)
}

pub open spec fn flats3(s: Seq<DocNode>) -> bool {
    forall|i: int| 0 <= i < s.len() ==> flat3(#[trigger] s[i])
}

pub open spec fn views0(v: Seq<DocNode>) -> Seq<Tree> {
    v.map_values(|x: DocNode| view0(x))
}

pub open spec fn views1(v: Seq<DocNode>) -> Seq<Tree> {
    v.map_values(|x: DocNode| view1(x))
}

pub open spec fn views2(v: Seq<DocNode>) -> Seq<Tree> {
    v.map_values(|x: DocNode| view2(x))
}

pub open spec fn views3(v: Seq<DocNode>) -> Seq<Tree> {
    v.map_values(|x: DocNode| view3(x))
}

/// A node with one text argument and no children.
fn text_leaf(name: &str, value: String) -> (r: DocNode)
    ensures
        view2(r) == leaf(name@, seq![ArgView::Str(value@)]),
        view1(r) == leaf(name@, seq![ArgView::Str(value@)]),
        view0(r) == leaf(name@, seq![ArgView::Str(value@)]),
        r.children is None,
{
    let mut args: Vec<DocValue> = Vec::new();
    args.push(DocValue::Str(value));
    let r = DocNode { name: String::from_str(name), args, children: None };
    assert(args_view(r.args@) =~= seq![ArgView::Str(value@)]);
    r
}

/// The entries of the section of `rank`, one leaf per key of that rank.
fn rank_entries(keys: &Vec<SortKey>, rank: u8) -> (r: Vec<DocNode>)
    ensures
        views0(r@) == of_rank(keys@, rank),
        leaves(r@),
{
    let mut out: Vec<DocNode> = Vec::new();
    let mut i: usize = 0;
    while i < keys.len()
        invariant
            i <= keys@.len(),
            views0(out@) == of_rank(keys@.take(i as int), rank),
            leaves(out@),
        decreases keys@.len() - i,
    {
        assert(keys@.take(i + 1).drop_last() =~= keys@.take(i as int));
        assert(keys@.take(i + 1).last() == keys@[i as int]);
        let k = &keys[i];
        if k.rank == rank {
            let ghost before = out@;
            let e = text_leaf(k.text.as_str(), k.extra.clone());
            out.push(e);
            assert(views0(out@) =~= views0(before).push(view0(e)));
        }
        i = i + 1;
    }
    assert(keys@.take(keys@.len() as int) =~= keys@);
    out
}

fn section_name(rank: u8) -> (r: String)
    requires
        rank < 4,
    ensures
        r@ == section_title(rank),
{
    if rank == 0 {
        String::from_str("dependencies")
    } else if rank == 1 {
        String::from_str("devDependencies")
    } else if rank == 2 {
        String::from_str("peerDependencies")
    } else {
        String::from_str("optionalDependencies")
    }
}

/// Appends the section of `rank` to `out` when it has entries.
fn push_section(keys: &Vec<SortKey>, rank: u8, out: &mut Vec<DocNode>)
    requires
        rank < 4,
    ensures
        views1(final(out)@) == views1(old(out)@) + section(keys@, rank),
        flats1(old(out)@) ==> flats1(final(out)@),
{
    let entries = rank_entries(keys, rank);
    if entries.len() > 0 {
        let ghost ev = entries@;
        let node = DocNode { name: section_name(rank), args: Vec::new(), children: Some(entries) };
        assert(args_view(node.args@) =~= Seq::<ArgView>::empty());
        let ghost before = out@;
        out.push(node);
        assert(views1(out@) =~= views1(before).push(view1(node)));
        assert(section(keys@, rank) =~= seq![view1(node)]);
    } else {
        assert(section(keys@, rank) =~= Seq::<Tree>::empty());
        assert(views1(out@) =~= views1(out@) + section(keys@, rank));
    }
}


fn str_values(v: &Vec<String>) -> (r: Vec<DocValue>)
    ensures
        args_view(r@) == str_args(names_view(v@)),
{
    let mut out: Vec<DocValue> = Vec::new();
    let mut i: usize = 0;
    while i < v.len()
        invariant
            i <= v@.len(),
            args_view(out@) == str_args(names_view(v@.take(i as int))),
        decreases v@.len() - i,
    {
        let ghost before = out@;
        out.push(DocValue::Str(v[i].clone()));
        assert(args_view(out@) =~= args_view(before).push(ArgView::Str(v@[i as int]@)));
        assert(names_view(v@.take(i + 1)) =~= names_view(v@.take(i as int)).push(v@[i as int]@));
        i = i + 1;
        assert(str_args(names_view(v@.take(i as int))) =~= args_view(out@));
    }
    assert(v@.take(v@.len() as int) =~= v@);
    out
}

fn push_leaf(out: &mut Vec<DocNode>, name: &str, value: String)
    ensures
        views1(final(out)@) == views1(old(out)@).push(leaf(name@, seq![ArgView::Str(value@)])),
        flats1(old(out)@) ==> flats1(final(out)@),
{
    let n = text_leaf(name, value);
    out.push(n);
    assert(views1(final(out)@) =~= views1(old(out)@).push(leaf(name@, seq![ArgView::Str(value@)])));
}

impl Graph {
    /// The lock entry of node `k`: `root` or `dep` with its path names, its
    /// `version`, `resolved` and `integrity` entries, then its dependency
    /// sections in kind order, each sorted by name.
    #[verifier::rlimit(40)]
    fn package_doc(&self, k: usize, is_root: bool) -> (r: DocNode)
        requires
            self.wf(),
            self.has_node(k as nat),
        ensures
            is_entry(*self, k as nat, is_root, view2(r)),
            flat2(r),
    {
        let node = self.node(k);
        let path = if is_root {
            let mut p: Vec<String> = Vec::new();
            p.push(node.package.name.clone());
            assert(names_view(p@) =~= doc_path(*self, k as nat, is_root));
            p
        } else {
            self.install_path_names(k)
        };
        let args = str_values(&path);
        let mut children: Vec<DocNode> = Vec::new();
        let resolved = &node.package.resolved;
        match resolved {
            PackageResolution::Registry { version, .. } => {
                push_leaf(&mut children, "version", version.clone());
            },
            _ => {},
        }
        let ghost after_version = views1(children@);
        if !is_root {
            push_leaf(&mut children, "resolved", resolved.descriptor());
            match resolved {
                PackageResolution::Registry { integrity: Some(i), .. } => {
                    push_leaf(&mut children, "integrity", i.clone());
                },
                _ => {},
            }
        }
        assert(views1(children@) =~= props(*self, k as nat, is_root));
        let keys = self.dependency_keys(k);
        push_section(&keys, 0, &mut children);
        push_section(&keys, 1, &mut children);
        push_section(&keys, 2, &mut children);
        push_section(&keys, 3, &mut children);
        assert(views1(children@) =~= props(*self, k as nat, is_root) + sections(keys@));
        let name = if is_root { String::from_str("root") } else { String::from_str("dep") };
        let ghost cv = children@;
        let r = DocNode { name, args, children: if children.len() == 0 { None } else { Some(children) } };
        assert(view2(r) == package_tree(*self, k as nat, is_root, keys@));
        assert(dep_order(*self, k as nat, keys@));
        r
    }
}


impl Graph {
    /// Every node but the root as a sort key on its install path text, in
    /// increasing order.
    fn node_keys(&self) -> (r: Vec<SortKey>)
        requires
            self.wf(),
        ensures
            node_order(*self, r@),
    {
        broadcast use vstd::seq_lib::group_to_multiset_ensures;
        let idx = self.node_indices();
        let ghost nats = idx@.map_values(|x: usize| x as nat);
        proof {
            assert(nats.no_duplicates());
            assert(nats.to_set() =~= self.nodes().dom()) by {
                assert forall|k: nat| nats.to_set().contains(k) <==> self.nodes().dom().contains(k) by {
                    if self.has_node(k) {
                        let i = choose|i: int| 0 <= i < idx@.len() && #[trigger] idx@[i] as nat == k;
                        assert(nats[i] == k);
                    }
                    if nats.contains(k) {
                        let i = choose|i: int| 0 <= i < nats.len() && nats[i] == k;
                        assert(self.has_node(idx@[i] as nat));
                    }
                }
            }
            nats.unique_seq_to_set();
            assert(nats.contains(self.root as nat) ) by {
                let i = choose|i: int| 0 <= i < idx@.len() && #[trigger] idx@[i] as nat == self.root as nat;
                assert(nats[i] == self.root as nat);
            }
        }
        let mut keys: Vec<SortKey> = Vec::new();
        let mut i: usize = 0;
        let mut seen_root: bool = false;
        while i < idx.len()
            invariant
                self.wf(),
                nats == idx@.map_values(|x: usize| x as nat),
                forall|a: int| 0 <= a < idx@.len() ==> self.has_node(#[trigger] idx@[a] as nat),
                forall|a: int, b: int| 0 <= a < b < idx@.len() ==> idx@[a] < idx@[b],
                i <= idx@.len(),
                seen_root == (exists|a: int| 0 <= a < i && idx@[a] == self.root),
                keys@.len() + (if seen_root { 1int } else { 0int }) == i,
                forall|j: int| 0 <= j < keys@.len() ==> {
                    let k = #[trigger] keys@[j].index as nat;
                    &&& self.has_node(k)
                    &&& k != self.root as nat
                    &&& keys@[j].rank == 0
                    &&& keys@[j].text@ == path_text(install_path(*self, k))
                    &&& keys@[j].extra@.len() == 0
                },
                forall|a: int| 0 <= a < i && idx@[a] != self.root ==> #[trigger] listed(keys@, idx@[a] as int),
                forall|j: int| 0 <= j < keys@.len() ==> exists|a: int| 0 <= a < i && #[trigger] keys@[j].index == idx@[a],
                distinct_indices(keys@),
            decreases idx@.len() - i,
        {
            let k = idx[i];
            if k == self.root {
                seen_root = true;
            } else {
                let path = self.install_path_names(k);
                let text = join_path(&path);
                let ghost before = keys@;
                keys.push(SortKey { rank: 0, text, extra: String::new(), index: k });
                proof {
                    assert forall|a: int| 0 <= a < i + 1 && idx@[a] != self.root implies #[trigger] listed(keys@, idx@[a] as int) by {
                        if a < i {
                            assert(listed(before, idx@[a] as int));
                            let j = choose|j: int| 0 <= j < before.len() && #[trigger] before[j].index == idx@[a] as int;
                            assert(keys@[j] == before[j]);
                        } else {
                            assert(keys@[keys@.len() - 1].index == idx@[a] as int);
                        }
                    }
                    assert forall|j: int| 0 <= j < keys@.len() implies exists|a: int| 0 <= a < i + 1 && #[trigger] keys@[j].index == idx@[a] by {
                        if j < before.len() {
                            assert(keys@[j] == before[j]);
                            let a = choose|a: int| 0 <= a < i && #[trigger] before[j].index == idx@[a];
                            assert(keys@[j].index == idx@[a]);
                        } else {
                            assert(keys@[j].index == idx@[i as int]);
                        }
                    }
                    assert forall|x: int, y: int| 0 <= x < y < keys@.len() implies #[trigger] keys@[x].index != #[trigger] keys@[y].index by {
                        if y == keys@.len() - 1 {
                            assert(keys@[x] == before[x]);
                            let a = choose|a: int| 0 <= a < i && #[trigger] before[x].index == idx@[a];
                            assert(idx@[a] < idx@[i as int]);
                        } else {
                            assert(keys@[x] == before[x]);
                            assert(keys@[y] == before[y]);
                        }
                    }
                }
            }
            i = i + 1;
        }
        proof {
            if !seen_root {
                let a = choose|a: int| 0 <= a < nats.len() && nats[a] == self.root as nat;
                assert(idx@[a] == self.root);
            }
        }
        let ghost unsorted = keys@;
        let r = sort_keys(keys);
        proof {
            assert forall|j: int| 0 <= j < r@.len() implies unsorted.contains(#[trigger] r@[j]) by {
                assert(r@.contains(r@[j]));
                assert(r@.to_multiset().count(r@[j]) > 0);
            }
            assert forall|k: nat| self.has_node(k) && k != self.root as nat implies #[trigger] listed(r@, k as int) by {
                let a = choose|a: int| 0 <= a < idx@.len() && #[trigger] idx@[a] as nat == k;
                assert(idx@[a] != self.root);
                assert(listed(unsorted, idx@[a] as int));
                let j = choose|j: int| 0 <= j < unsorted.len() && #[trigger] unsorted[j].index == idx@[a] as int;
                assert(unsorted.contains(unsorted[j]));
                assert(unsorted.to_multiset().count(unsorted[j]) > 0);
                assert(r@.contains(unsorted[j]));
                let m = choose|m: int| 0 <= m < r@.len() && r@[m] == unsorted[j];
                assert(r@[m].index == k as int);
            }
        }
        r
    }
}


impl Graph {
    /// The lock document of the graph, as document nodes: `lockfile-version 1`,
    /// then `packages` with the root entry first and every other node after
    /// it, in install-path order.
    pub fn lock_document(&self) -> (r: Vec<DocNode>)
        requires
            self.wf(),
        ensures
            is_lock_document(*self, views3(r@)),
            flats3(r@),
    {
        let mut version_args: Vec<DocValue> = Vec::new();
        version_args.push(DocValue::Int(1));
        let version = DocNode { name: String::from_str("lockfile-version"), args: version_args, children: None };
        assert(args_view(version.args@) =~= seq![ArgView::Int(1)]);
        let mut packages: Vec<DocNode> = Vec::new();
        let root_doc = self.package_doc(self.root, true);
        packages.push(root_doc);
        let order = self.node_keys();
        let mut j: usize = 0;
        while j < order.len()
            invariant
                self.wf(),
                node_order(*self, order@),
                j <= order@.len(),
                packages@.len() == j + 1,
                packages@[0] == root_doc,
                flats2(packages@),
                forall|a: int| 0 <= a < j ==> #[trigger] is_entry(*self, order@[a].index as nat, false, view2(packages@[a + 1])),
            decreases order@.len() - j,
        {
            let k = order[j].index;
            assert(self.has_node(order@[j as int].index as nat));
            let d = self.package_doc(k, false);
            let ghost before = packages@;
            packages.push(d);
            proof {
                assert forall|a: int| 0 <= a < j + 1 implies #[trigger] is_entry(*self, order@[a].index as nat, false, view2(packages@[a + 1])) by {
                    if a < j {
                        assert(packages@[a + 1] == before[a + 1]);
                    }
                }
            }
            j = j + 1;
        }
        let ghost pv = packages@;
        let packages_node = DocNode { name: String::from_str("packages"), args: Vec::new(), children: Some(packages) };
        let mut r: Vec<DocNode> = Vec::new();
        r.push(version);
        r.push(packages_node);
        proof {
            let d = views3(r@);
            assert(args_view(packages_node.args@) =~= Seq::<ArgView>::empty());
            let ps = views2(pv);
            assert(d[1].children == Some(ps));
            assert(ps.len() == order@.len() + 1);
            assert(node_order(*self, order@));
            assert forall|a: int| 0 <= a < order@.len() implies #[trigger] is_entry(*self, order@[a].index as nat, false, ps[a + 1]) by {
                assert(ps[a + 1] == view2(pv[a + 1]));
            }
            assert(ps[0] == view2(root_doc));
            assert(flat3(r@[1]));
            assert(flat3(r@[0]));
        }
        r
    }

    /// The lock document of the graph in KDL, canonically formatted.
    pub fn to_kdl(&self) -> (r: KdlDocument)
        requires
            self.wf(),
        ensures
            exists|d: Seq<Tree>| is_lock_document(*self, d) && r == kdl_formatted(kdl_document_of(d)),
    {
        let nodes = self.lock_document();
        let mut doc = kdl_document(&nodes);
        kdl_format(&mut doc);
        assert(nodes@.map_values(|x: DocNode| view3(x)) == views3(nodes@));
        doc
    }
}


/// In a lock document, a package whose install path text comes first in
/// lexicographic order is listed first, whatever order the nodes were added in.
pub proof fn lemma_packages_in_path_order(g: Graph, order: Seq<SortKey>, a: nat, b: nat)
    requires
        node_order(g, order),
        g.has_node(a),
        g.has_node(b),
        a != g.root as nat,
        b != g.root as nat,
        lex_lt(path_text(install_path(g, a)), path_text(install_path(g, b))),
    ensures
        exists|i: int, j: int| 0 <= i < j < order.len() && order[i].index == a && order[j].index == b,
{
    assert(listed(order, a as int));
    assert(listed(order, b as int));
    let i = choose|i: int| 0 <= i < order.len() && #[trigger] order[i].index == a as int;
    let j = choose|j: int| 0 <= j < order.len() && #[trigger] order[j].index == b as int;
    assert(order[i].text@ == path_text(install_path(g, a)));
    assert(order[j].text@ == path_text(install_path(g, b)));
    lemma_lex_irreflexive(order[i].text@);
    assert(key_lt(order[i], order[j]));
    if j < i {
        assert(!key_lt(order[i], order[j]));
    }
    assert(i != j);
}

/// Every entry of the section of `rank` comes from a key of that rank.
pub proof fn lemma_of_rank_from(s: Seq<SortKey>, rank: u8, i: int)
    requires
        0 <= i < of_rank(s, rank).len(),
    ensures
        exists|m: int| 0 <= m < s.len() && s[m].rank == rank
            && #[trigger] of_rank(s, rank)[i] == leaf(s[m].text@, seq![ArgView::Str(s[m].extra@)]),
    decreases s.len(),
{
    let rest = of_rank(s.drop_last(), rank);
    if i < rest.len() {
        lemma_of_rank_from(s.drop_last(), rank, i);
        let m = choose|m: int| 0 <= m < s.drop_last().len() && s.drop_last()[m].rank == rank
            && #[trigger] rest[i] == leaf(s.drop_last()[m].text@, seq![ArgView::Str(s.drop_last()[m].extra@)]);
        assert(s[m] == s.drop_last()[m]);
        assert(of_rank(s, rank)[i] == rest[i]);
    } else {
        assert(of_rank(s, rank)[i] == leaf(s[s.len() - 1].text@, seq![ArgView::Str(s[s.len() - 1].extra@)]));
    }
}

/// Within one dependency section, entries are in order of package name.
pub proof fn lemma_section_sorted_by_name(s: Seq<SortKey>, rank: u8, i: int, j: int)
    requires
        sorted_keys(s),
        0 <= i < j < of_rank(s, rank).len(),
    ensures
        !lex_lt(of_rank(s, rank)[j].name, of_rank(s, rank)[i].name),
    decreases s.len(),
{
    let rest = of_rank(s.drop_last(), rank);
    assert(sorted_keys(s.drop_last())) by {
        assert forall|x: int, y: int| 0 <= x < y < s.drop_last().len() implies !key_lt(#[trigger] s.drop_last()[y], #[trigger] s.drop_last()[x]) by {
            assert(s.drop_last()[y] == s[y]);
            assert(s.drop_last()[x] == s[x]);
        }
    }
    if j < rest.len() {
        lemma_section_sorted_by_name(s.drop_last(), rank, i, j);
        assert(of_rank(s, rank)[i] == rest[i]);
        assert(of_rank(s, rank)[j] == rest[j]);
    } else {
        let last = s[s.len() - 1];
        assert(of_rank(s, rank)[j] == leaf(last.text@, seq![ArgView::Str(last.extra@)]));
        lemma_of_rank_from(s.drop_last(), rank, i);
        let m = choose|m: int| 0 <= m < s.drop_last().len() && s.drop_last()[m].rank == rank
            && #[trigger] rest[i] == leaf(s.drop_last()[m].text@, seq![ArgView::Str(s.drop_last()[m].extra@)]);
        assert(of_rank(s, rank)[i] == rest[i]);
        assert(s[m] == s.drop_last()[m]);
        assert(!key_lt(s[s.len() - 1], s[m]));
        lemma_lex_irreflexive(last.text@);
    }
}

/// Dependency sections come in kind order: production, development, peer,
/// optional. A section that comes before another has the lower kind.
pub proof fn lemma_sections_in_kind_order(s: Seq<SortKey>, i: int, j: int)
    requires
        0 <= i < j < sections(s).len(),
    ensures
        exists|a: u8, b: u8| a < b < 4 && sections(s)[i].name == section_title(a)
            && #[trigger] sections(s)[j].name == section_title(b),
{
    let s0 = section(s, 0);
    let s1 = section(s, 1);
    let s2 = section(s, 2);
    let s3 = section(s, 3);
    let all = sections(s);
    assert(all == s0 + s1 + s2 + s3);
    let n0 = s0.len() as int;
    let n1 = s1.len() as int;
    let n2 = s2.len() as int;
    let a: u8 = if i < n0 { 0 } else if i < n0 + n1 { 1 } else if i < n0 + n1 + n2 { 2 } else { 3 };
    let b: u8 = if j < n0 { 0 } else if j < n0 + n1 { 1 } else if j < n0 + n1 + n2 { 2 } else { 3 };
    assert(all[i].name == section_title(a));
    assert(all[j].name == section_title(b));
}


/// Key sequences that agree key by key give the same section entries.
pub proof fn lemma_of_rank_same(s1: Seq<SortKey>, s2: Seq<SortKey>, rank: u8)
    requires
        s1.len() == s2.len(),
        forall|i: int| 0 <= i < s1.len() ==> #[trigger] same_key(s1[i], s2[i]),
    ensures
        of_rank(s1, rank) == of_rank(s2, rank),
    decreases s1.len(),
{
    if s1.len() > 0 {
        assert(same_key(s1[s1.len() - 1], s2[s2.len() - 1]));
        assert forall|i: int| 0 <= i < s1.drop_last().len() implies #[trigger] same_key(s1.drop_last()[i], s2.drop_last()[i]) by {
            assert(same_key(s1[i], s2[i]));
        }
        lemma_of_rank_same(s1.drop_last(), s2.drop_last(), rank);
    }
}

/// The dependency order of a node is unique, key by key.
pub proof fn lemma_dep_order_unique(g: Graph, k: nat, s1: Seq<SortKey>, s2: Seq<SortKey>)
    requires
        dep_order(g, k, s1),
        dep_order(g, k, s2),
    ensures
        forall|i: int| 0 <= i < s1.len() ==> #[trigger] same_key(s1[i], s2[i]),
{
    let deps = g.nodes()[k].dependencies@;
    assert forall|a: int| 0 <= a < s1.len() implies #[trigger] holds_key(s2, s1[a]) by {
        let m = s1[a].index as int;
        assert(listed(s2, m));
        let b = choose|b: int| 0 <= b < s2.len() && #[trigger] s2[b].index == m;
        assert(same_key(s1[a], s2[b]));
    }
    assert forall|b: int| 0 <= b < s2.len() implies #[trigger] holds_key(s1, s2[b]) by {
        let m = s2[b].index as int;
        assert(listed(s1, m));
        let a = choose|a: int| 0 <= a < s1.len() && #[trigger] s1[a].index == m;
        assert(same_key(s2[b], s1[a]));
    }
    assert forall|i: int| 0 <= i < s1.len() implies #[trigger] same_key(s1[i], s2[i]) by {
        lemma_sorted_unique(s1, s2, i);
    }
}

/// The install-path order of the nodes is unique, key by key.
pub proof fn lemma_node_order_unique(g: Graph, s1: Seq<SortKey>, s2: Seq<SortKey>)
    requires
        node_order(g, s1),
        node_order(g, s2),
    ensures
        forall|i: int| 0 <= i < s1.len() ==> #[trigger] same_key(s1[i], s2[i]),
{
    assert forall|a: int| 0 <= a < s1.len() implies #[trigger] holds_key(s2, s1[a]) by {
        let m = s1[a].index as nat;
        assert(listed(s2, m as int));
        let b = choose|b: int| 0 <= b < s2.len() && #[trigger] s2[b].index == m as int;
        assert(s1[a].extra@ =~= s2[b].extra@);
        assert(same_key(s1[a], s2[b]));
    }
    assert forall|b: int| 0 <= b < s2.len() implies #[trigger] holds_key(s1, s2[b]) by {
        let m = s2[b].index as nat;
        assert(listed(s1, m as int));
        let a = choose|a: int| 0 <= a < s1.len() && #[trigger] s1[a].index == m as int;
        assert(s1[a].extra@ =~= s2[b].extra@);
        assert(same_key(s2[b], s1[a]));
    }
    assert forall|i: int| 0 <= i < s1.len() implies #[trigger] same_key(s1[i], s2[i]) by {
        lemma_sorted_unique(s1, s2, i);
    }
}

/// A node has exactly one lock entry.
pub proof fn lemma_entry_unique(g: Graph, k: nat, is_root: bool, t1: Tree, t2: Tree)
    requires
        is_entry(g, k, is_root, t1),
        is_entry(g, k, is_root, t2),
    ensures
        t1 == t2,
{
    let s1 = choose|s: Seq<SortKey>| dep_order(g, k, s) && t1 == package_tree(g, k, is_root, s);
    let s2 = choose|s: Seq<SortKey>| dep_order(g, k, s) && t2 == package_tree(g, k, is_root, s);
    lemma_dep_order_unique(g, k, s1, s2);
    lemma_of_rank_same(s1, s2, 0);
    lemma_of_rank_same(s1, s2, 1);
    lemma_of_rank_same(s1, s2, 2);
    lemma_of_rank_same(s1, s2, 3);
    assert(sections(s1) == sections(s2));
}

/// Serializing is deterministic: a graph has exactly one lock document, so
/// serializing the same graph twice gives identical KDL documents.
pub proof fn lemma_lock_document_deterministic(g: Graph, d1: Seq<Tree>, d2: Seq<Tree>)
    requires
        is_lock_document(g, d1),
        is_lock_document(g, d2),
    ensures
        d1 == d2,
        kdl_formatted(kdl_document_of(d1)) == kdl_formatted(kdl_document_of(d2)),
{
    let ps1 = d1[1].children.unwrap();
    let ps2 = d2[1].children.unwrap();
    let o1 = choose|order: Seq<SortKey>| {
        &&& #[trigger] node_order(g, order)
        &&& ps1.len() == order.len() + 1
        &&& is_entry(g, g.root as nat, true, ps1[0])
        &&& forall|j: int| 0 <= j < order.len() ==> #[trigger] is_entry(g, order[j].index as nat, false, ps1[j + 1])
    };
    let o2 = choose|order: Seq<SortKey>| {
        &&& #[trigger] node_order(g, order)
        &&& ps2.len() == order.len() + 1
        &&& is_entry(g, g.root as nat, true, ps2[0])
        &&& forall|j: int| 0 <= j < order.len() ==> #[trigger] is_entry(g, order[j].index as nat, false, ps2[j + 1])
    };
    lemma_node_order_unique(g, o1, o2);
    lemma_entry_unique(g, g.root as nat, true, ps1[0], ps2[0]);
    assert forall|i: int| 0 <= i < ps1.len() implies ps1[i] == ps2[i] by {
        if i > 0 {
            assert(same_key(o1[i - 1], o2[i - 1]));
            let j = i - 1;
            assert(is_entry(g, o1[j].index as nat, false, ps1[j + 1]));
            assert(is_entry(g, o2[j].index as nat, false, ps2[j + 1]));
            lemma_entry_unique(g, o1[i - 1].index as nat, false, ps1[i], ps2[i]);
        }
    }
    assert(ps1 =~= ps2);
    assert(d1[0] == d2[0]);
    assert(d1[1].args =~= d2[1].args);
    assert(d1[1] == d2[1]);
    assert(d1 =~= d2);
}

} // verus!
