use node_maintainer::graph::{Edge, Graph};
use node_maintainer::lock::{join_path, DocValue};
use node_maintainer::order::{sort_keys, str_lt, SortKey};
use node_maintainer::package::{DepType, Package, PackageResolution, PackageSpec};

fn registry_package(name: &str, version: &str, integrity: Option<&str>) -> Package {
    Package::new(
        PackageSpec::Registry { name: name.to_string(), scope: None, requested: Some(format!("^{version}")) },
        name.to_string(),
        PackageResolution::Registry {
            version: version.to_string(),
            tarball: format!("https://registry.example/{name}-{version}.tgz"),
            integrity: integrity.map(|s| s.to_string()),
        },
    )
}

fn root_package() -> Package {
    Package::new(PackageSpec::Dir { path: ".".to_string() }, "app".to_string(), PackageResolution::Dir { path: ".".to_string() })
}

fn edge(name: &str, range: &str, dep_type: DepType) -> Edge {
    Edge {
        requested: PackageSpec::Registry { name: name.to_string(), scope: None, requested: Some(range.to_string()) },
        dep_type,
    }
}

fn pos(text: &str, needle: &str) -> usize {
    text.find(needle).unwrap_or_else(|| panic!("{needle:?} missing from {text}"))
}

#[test]
fn siblings_sorted_regardless_of_insertion_order() {
    let mut g = Graph::new(root_package());
    let root = g.root;
    g.add_child(root, registry_package("b", "1.0.0", None)).unwrap();
    g.add_child(root, registry_package("a", "1.0.0", None)).unwrap();
    let text = g.to_kdl().to_string();
    assert!(pos(&text, "lockfile-version 1") < pos(&text, "packages"));
    assert!(pos(&text, "root \"app\"") < pos(&text, "dep \"a\""));
    assert!(pos(&text, "dep \"a\"") < pos(&text, "dep \"b\""));
}

#[test]
fn serializing_twice_is_identical() {
    let mut g = Graph::new(root_package());
    let root = g.root;
    let z = g.add_child(root, registry_package("z", "1.0.0", Some("sha512-z"))).unwrap();
    g.add_child(z, registry_package("y", "2.0.0", None)).unwrap();
    g.add_child(root, registry_package("m", "3.0.0", None)).unwrap();
    g.add_dependency(root, z, "z".to_string(), edge("z", "^1.0.0", DepType::Prod)).unwrap();
    let first = g.to_kdl().to_string();
    let second = g.to_kdl().to_string();
    assert_eq!(first, second);
    assert_eq!(format!("{:?}", g.lock_document()), format!("{:?}", g.lock_document()));
}

#[test]
fn prod_section_before_peer_section() {
    let mut g = Graph::new(root_package());
    let root = g.root;
    let p = g.add_child(root, registry_package("p", "1.0.0", None)).unwrap();
    let q = g.add_child(root, registry_package("q", "1.0.0", None)).unwrap();
    g.add_dependency(root, p, "p".to_string(), edge("p", "^1.0.0", DepType::Peer)).unwrap();
    g.add_dependency(root, q, "q".to_string(), edge("q", "~1.0.0", DepType::Prod)).unwrap();
    let text = g.to_kdl().to_string();
    assert!(pos(&text, "dependencies") < pos(&text, "peerDependencies"));
    assert!(text.contains("q \"~1.0.0\""));
    assert!(text.contains("p \"^1.0.0\""));
}

#[test]
fn entries_within_section_sorted_by_name() {
    let mut g = Graph::new(root_package());
    let root = g.root;
    let zeta = g.add_child(root, registry_package("zeta", "1.0.0", None)).unwrap();
    let alpha = g.add_child(root, registry_package("alpha", "1.0.0", None)).unwrap();
    g.add_dependency(root, zeta, "zeta".to_string(), edge("zeta", "^1", DepType::Prod)).unwrap();
    g.add_dependency(root, alpha, "alpha".to_string(), edge("alpha", "^2", DepType::Prod)).unwrap();
    let doc = g.lock_document();
    let packages = doc[1].children.as_ref().unwrap();
    let root_entry = &packages[0];
    assert_eq!(root_entry.name, "root");
    let sections = root_entry.children.as_ref().unwrap();
    assert_eq!(sections.len(), 1);
    assert_eq!(sections[0].name, "dependencies");
    let entries = sections[0].children.as_ref().unwrap();
    assert_eq!(entries[0].name, "alpha");
    assert_eq!(entries[0].args, vec![DocValue::Str("^2".to_string())]);
    assert_eq!(entries[1].name, "zeta");
}

#[test]
fn root_entry_omits_resolved_and_integrity() {
    let mut g = Graph::new(registry_package("app", "0.1.0", Some("sha512-root")));
    let root = g.root;
    g.add_child(root, registry_package("a", "1.0.0", Some("sha512-aaa"))).unwrap();
    let doc = g.lock_document();
    assert_eq!(doc[0].name, "lockfile-version");
    assert_eq!(doc[0].args, vec![DocValue::Int(1)]);
    let packages = doc[1].children.as_ref().unwrap();
    let root_children = packages[0].children.as_ref().unwrap();
    assert_eq!(root_children.len(), 1);
    assert_eq!(root_children[0].name, "version");
    assert_eq!(root_children[0].args, vec![DocValue::Str("0.1.0".to_string())]);
    let dep_children = packages[1].children.as_ref().unwrap();
    let names: Vec<&str> = dep_children.iter().map(|c| c.name.as_str()).collect();
    assert_eq!(names, vec!["version", "resolved", "integrity"]);
    assert_eq!(dep_children[1].args, vec![DocValue::Str("https://registry.example/a-1.0.0.tgz".to_string())]);
    assert_eq!(dep_children[2].args, vec![DocValue::Str("sha512-aaa".to_string())]);
}

#[test]
fn nested_entry_carries_install_path() {
    let mut g = Graph::new(root_package());
    let root = g.root;
    let a = g.add_child(root, registry_package("a", "1.0.0", None)).unwrap();
    g.add_child(a, registry_package("b", "1.0.0", None)).unwrap();
    let doc = g.lock_document();
    let packages = doc[1].children.as_ref().unwrap();
    assert_eq!(packages.len(), 3);
    assert_eq!(packages[0].args, vec![DocValue::Str("app".to_string())]);
    assert!(packages[0].children.is_none());
    assert_eq!(packages[1].args, vec![DocValue::Str("a".to_string())]);
    assert_eq!(packages[2].args, vec![DocValue::Str("a".to_string()), DocValue::Str("b".to_string())]);
    let text = g.to_kdl().to_string();
    assert!(text.contains("dep \"a\" \"b\""));
}

#[test]
fn all_four_sections_in_kind_order() {
    let mut g = Graph::new(root_package());
    let root = g.root;
    let o = g.add_child(root, registry_package("o", "1.0.0", None)).unwrap();
    g.add_dependency(root, o, "o".to_string(), edge("o", "1", DepType::Opt)).unwrap();
    g.add_dependency(root, o, "p".to_string(), edge("o", "1", DepType::Peer)).unwrap();
    g.add_dependency(root, o, "d".to_string(), edge("o", "1", DepType::Dev)).unwrap();
    g.add_dependency(root, o, "r".to_string(), edge("o", "1", DepType::Prod)).unwrap();
    let doc = g.lock_document();
    let packages = doc[1].children.as_ref().unwrap();
    let names: Vec<&str> = packages[0].children.as_ref().unwrap().iter().map(|c| c.name.as_str()).collect();
    assert_eq!(names, vec!["dependencies", "devDependencies", "peerDependencies", "optionalDependencies"]);
}

#[test]
fn path_join_and_string_order() {
    assert_eq!(join_path(&vec!["a".to_string(), "b".to_string(), "c".to_string()]), "a/b/c");
    assert_eq!(join_path(&vec![]), "");
    assert!(str_lt("alpha", "zeta"));
    assert!(!str_lt("zeta", "alpha"));
    assert!(str_lt("a", "ab"));
    assert!(!str_lt("ab", "ab"));
    assert!(str_lt("B", "a"));
}

#[test]
fn sort_keys_orders_by_rank_then_text() {
    let key = |rank: u8, text: &str, index: usize| SortKey { rank, text: text.to_string(), extra: String::new(), index };
    let sorted = sort_keys(vec![key(2, "a", 0), key(0, "zeta", 1), key(0, "alpha", 2), key(1, "m", 3), key(0, "alpha", 4)]);
    let order: Vec<usize> = sorted.iter().map(|k| k.index).collect();
    assert_eq!(order, vec![2, 4, 1, 3, 0]);
    assert!(sort_keys(vec![]).is_empty());
}
