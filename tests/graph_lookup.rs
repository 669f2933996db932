use node_maintainer::graph::{Edge, Graph};
use node_maintainer::package::{DepType, Package, PackageResolution, PackageSpec};

fn registry_package(name: &str, version: &str) -> Package {
    Package::new(
        PackageSpec::Registry { name: name.to_string(), scope: None, requested: Some(format!("^{version}")) },
        name.to_string(),
        PackageResolution::Registry {
            version: version.to_string(),
            tarball: format!("https://registry.example/{name}/-/{name}-{version}.tgz"),
            integrity: None,
        },
    )
}

#[test]
fn find_by_name_ignores_letter_case() {
    let mut g = Graph::new(registry_package("app", "1.0.0"));
    let root = g.root;
    let react = g.add_child(root, registry_package("React", "18.0.0")).unwrap();
    let mid = g.add_child(root, registry_package("mid", "1.0.0")).unwrap();
    let leaf = g.add_child(mid, registry_package("leaf", "1.0.0")).unwrap();
    assert_eq!(g.find_by_name(leaf, "react"), Some(react));
    assert_eq!(g.find_by_name(leaf, "REACT"), Some(react));
    assert_eq!(g.find_by_name(leaf, "React"), Some(react));
    assert_eq!(g.find_by_name(root, "rEaCt"), Some(react));
}

#[test]
fn find_by_name_absent_is_none() {
    let mut g = Graph::new(registry_package("app", "1.0.0"));
    let root = g.root;
    let mid = g.add_child(root, registry_package("mid", "1.0.0")).unwrap();
    let leaf = g.add_child(mid, registry_package("leaf", "1.0.0")).unwrap();
    assert_eq!(g.find_by_name(leaf, "lodash"), None);
    assert_eq!(g.find_by_name(root, "lodash"), None);
    assert_eq!(g.find_by_name(leaf, "app"), None);
}

#[test]
fn find_by_name_prefers_nearest_scope() {
    let mut g = Graph::new(registry_package("app", "1.0.0"));
    let root = g.root;
    let hoisted = g.add_child(root, registry_package("dep", "1.0.0")).unwrap();
    let mid = g.add_child(root, registry_package("mid", "1.0.0")).unwrap();
    let nested = g.add_child(mid, registry_package("dep", "2.0.0")).unwrap();
    assert_eq!(g.find_by_name(mid, "dep"), Some(nested));
    assert_eq!(g.find_by_name(root, "dep"), Some(hoisted));
    assert_eq!(g.find_by_name(hoisted, "dep"), Some(hoisted));
}

#[test]
fn find_by_name_unknown_start_is_none() {
    let g = Graph::new(registry_package("app", "1.0.0"));
    assert_eq!(g.find_by_name(12345, "app"), None);
}

#[test]
fn add_child_and_dependency_record_structure() {
    let mut g = Graph::new(registry_package("app", "1.0.0"));
    let root = g.root;
    let a = g.add_child(root, registry_package("a", "1.0.0")).unwrap();
    let e = g.add_dependency(
        root,
        a,
        "a".to_string(),
        Edge {
            requested: PackageSpec::Registry { name: "a".to_string(), scope: None, requested: Some("^1.0.0".to_string()) },
            dep_type: DepType::Prod,
        },
    ).unwrap();
    assert_eq!(g.node_count(), 2);
    assert_eq!(g.node(a).parent, Some(root));
    assert_eq!(g.node(root).children, vec![("a".to_string(), a)]);
    assert_eq!(g.node(root).dependencies, vec![("a".to_string(), e)]);
    assert_eq!(g.edge(e).dep_type, DepType::Prod);
    assert_eq!(g.node_indices().len(), 2);
}

#[test]
fn nested_path_and_label() {
    let mut g = Graph::new(registry_package("app", "1.0.0"));
    let root = g.root;
    let mid = g.add_child(root, registry_package("mid", "1.0.0")).unwrap();
    let leaf = g.add_child(mid, registry_package("leaf", "2.0.0")).unwrap();
    assert_eq!(g.nested_path(leaf), "mid/node_modules/leaf");
    assert_eq!(g.nested_path(root), "app");
    assert_eq!(
        g.node_label(leaf),
        "https://registry.example/leaf/-/leaf-2.0.0.tgz @ mid/node_modules/leaf"
    );
    assert_eq!(g.install_path_names(leaf), vec!["mid".to_string(), "leaf".to_string()]);
    assert!(g.install_path_names(root).is_empty());
}

#[test]
fn render_lists_nodes_and_edges() {
    let mut g = Graph::new(registry_package("app", "1.0.0"));
    let root = g.root;
    let a = g.add_child(root, registry_package("a", "1.0.0")).unwrap();
    g.add_dependency(
        root,
        a,
        "a".to_string(),
        Edge {
            requested: PackageSpec::Registry { name: "a".to_string(), scope: None, requested: Some("^1.0.0".to_string()) },
            dep_type: DepType::Prod,
        },
    ).unwrap();
    let dot = g.render();
    assert!(dot.starts_with("digraph"));
    assert!(dot.contains("https://registry.example/a/-/a-1.0.0.tgz @ a"));
    assert!(dot.contains("https://registry.example/app/-/app-1.0.0.tgz @ app"));
    assert!(dot.contains("^1.0.0"));
    assert!(dot.contains("->"));
}

#[test]
fn add_child_with_same_name_in_other_case_reuses_slot() {
    let mut g = Graph::new(registry_package("app", "1.0.0"));
    let root = g.root;
    let first = g.add_child(root, registry_package("React", "18.0.0")).unwrap();
    assert_eq!(g.add_child(root, registry_package("react", "17.0.0")), Err(first));
    assert_eq!(g.node_count(), 2);
    assert_eq!(g.find_child(root, "REACT"), Some(first));
    assert_eq!(g.find_child(root, "vue"), None);
}

#[test]
fn set_package_replaces_in_place() {
    let mut g = Graph::new(registry_package("app", "1.0.0"));
    let root = g.root;
    let a = g.add_child(root, registry_package("a", "1.0.0")).unwrap();
    g.set_package(a, registry_package("a", "1.1.0"));
    assert_eq!(g.node(a).parent, Some(root));
    assert_eq!(g.node_label(a), "https://registry.example/a/-/a-1.1.0.tgz @ a");
    assert_eq!(g.find_by_name(a, "A"), Some(a));
}

#[test]
fn second_dependency_of_same_name_is_refused() {
    let mut g = Graph::new(registry_package("app", "1.0.0"));
    let root = g.root;
    let a = g.add_child(root, registry_package("a", "1.0.0")).unwrap();
    let edge = |r: &str| Edge {
        requested: PackageSpec::Registry { name: "a".to_string(), scope: None, requested: Some(r.to_string()) },
        dep_type: DepType::Prod,
    };
    let e = g.add_dependency(root, a, "a".to_string(), edge("^1")).unwrap();
    assert_eq!(g.add_dependency(root, a, "a".to_string(), edge("^2")), Err(e));
    assert_eq!(g.find_dependency(root, "a"), Some(e));
    assert_eq!(g.find_dependency(root, "b"), None);
    assert_eq!(g.node(root).dependencies.len(), 1);
}
