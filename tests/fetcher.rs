use node_maintainer::fetch::{FetchError, NpmFetcher, PackumentStep};
use node_maintainer::package::{ManifestDep, Package, PackageResolution, PackageSpec, Packument, VersionMetadata};

fn registry_spec(name: &str, scope: Option<&str>) -> PackageSpec {
    PackageSpec::Registry { name: name.to_string(), scope: scope.map(|s| s.to_string()), requested: None }
}

fn manifest(name: &str, version: &str) -> VersionMetadata {
    VersionMetadata {
        name: name.to_string(),
        version: version.to_string(),
        tarball: format!("https://registry.example/{name}-{version}.tgz"),
        integrity: Some("sha512-abc".to_string()),
        dependencies: vec![ManifestDep { name: "dep".to_string(), requested: "^1".to_string() }],
    }
}

fn packument(name: &str, versions: &[&str]) -> Packument {
    Packument { versions: versions.iter().map(|v| (v.to_string(), manifest(name, v))).collect() }
}

fn resolved_package(spec: PackageSpec, name: &str, version: &str) -> Package {
    Package::new(
        spec,
        name.to_string(),
        PackageResolution::Registry {
            version: version.to_string(),
            tarball: format!("https://registry.example/{name}-{version}.tgz"),
            integrity: None,
        },
    )
}

#[test]
fn scoped_request_falls_back_to_default_registry() {
    let f = NpmFetcher::new(false, vec![(None, "https://default.example/".to_string())]);
    assert_eq!(f.pick_registry(&Some("myscope".to_string())), "https://default.example/");
    assert_eq!(f.pick_registry(&None), "https://default.example/");
}

#[test]
fn scope_entry_wins_over_default() {
    let f = NpmFetcher::new(
        false,
        vec![
            (None, "https://default.example/".to_string()),
            (Some("corp".to_string()), "https://corp.example/".to_string()),
        ],
    );
    assert_eq!(f.pick_registry(&Some("corp".to_string())), "https://corp.example/");
    assert_eq!(f.pick_registry(&Some("other".to_string())), "https://default.example/");
}

#[test]
fn no_registry_configured_uses_public_registry() {
    let f = NpmFetcher::new(false, vec![]);
    assert_eq!(f.pick_registry(&None), "https://registry.npmjs.org/");
    assert_eq!(f.pick_registry(&Some("x".to_string())), "https://registry.npmjs.org/");
}

#[test]
fn alias_name_differs_from_packument_name() {
    let f = NpmFetcher::new(false, vec![]);
    let alias = PackageSpec::Alias { name: "foo".to_string(), spec: Box::new(registry_spec("bar", None)) };
    assert_eq!(f.name(&alias), "foo");
    assert_eq!(f.packument_name(&alias), "bar");
    match f.packument(&alias) {
        PackumentStep::Fetch(req) => {
            assert_eq!(req.name, "bar");
            assert_eq!(req.registry, "https://registry.npmjs.org/");
        }
        PackumentStep::Cached(_) => panic!("empty cache answered"),
    }
}

#[test]
fn scoped_packument_name_is_fully_qualified() {
    let f = NpmFetcher::new(true, vec![(Some("corp".to_string()), "https://corp.example/".to_string())]);
    let spec = registry_spec("tool", Some("corp"));
    assert_eq!(f.name(&spec), "tool");
    assert_eq!(f.packument_name(&spec), "@corp/tool");
    match f.packument(&spec) {
        PackumentStep::Fetch(req) => {
            assert_eq!(req.name, "@corp/tool");
            assert_eq!(req.registry, "https://corp.example/");
            assert!(req.corgi);
        }
        PackumentStep::Cached(_) => panic!("empty cache answered"),
    }
}

#[test]
fn second_request_is_served_from_cache() {
    let mut f = NpmFetcher::new(false, vec![]);
    let spec = registry_spec("lodash", None);
    assert!(matches!(f.packument(&spec), PackumentStep::Fetch(_)));
    let stored = f.store_packument(&spec, packument("lodash", &["1.0.0", "2.0.0"]));
    assert_eq!(*stored, packument("lodash", &["1.0.0", "2.0.0"]));
    let first = match f.packument(&spec) {
        PackumentStep::Cached(p) => p,
        PackumentStep::Fetch(_) => panic!("cache missed"),
    };
    let second = match f.packument(&spec) {
        PackumentStep::Cached(p) => p,
        PackumentStep::Fetch(_) => panic!("cache missed"),
    };
    assert_eq!(*first, *second);
    assert_eq!(*first, packument("lodash", &["1.0.0", "2.0.0"]));
    // an alias of the same package shares the cached document
    let alias = PackageSpec::Alias { name: "ld".to_string(), spec: Box::new(registry_spec("lodash", None)) };
    assert!(matches!(f.packument(&alias), PackumentStep::Cached(_)));
}

#[test]
fn later_store_replaces_cached_document() {
    let mut f = NpmFetcher::new(false, vec![]);
    let spec = registry_spec("a", None);
    f.store_packument(&spec, packument("a", &["1.0.0"]));
    f.store_packument(&spec, packument("a", &["1.0.0", "1.1.0"]));
    match f.packument(&spec) {
        PackumentStep::Cached(p) => assert_eq!(p.versions.len(), 2),
        PackumentStep::Fetch(_) => panic!("cache missed"),
    }
}

#[test]
fn metadata_missing_version_carries_spec_and_version() {
    let f = NpmFetcher::new(false, vec![]);
    let spec = PackageSpec::Registry { name: "left-pad".to_string(), scope: None, requested: Some("^9".to_string()) };
    let pkg = resolved_package(spec, "left-pad", "9.9.9");
    let doc = packument("left-pad", &["1.0.0", "1.1.0"]);
    match f.metadata(&pkg, &doc) {
        Err(FetchError::MissingVersion(s, v)) => {
            assert_eq!(v, "9.9.9");
            match s {
                PackageSpec::Registry { name, scope, requested } => {
                    assert_eq!(name, "left-pad");
                    assert_eq!(scope, None);
                    assert_eq!(requested, Some("^9".to_string()));
                }
                other => panic!("wrong spec {other:?}"),
            }
        }
        Ok(m) => panic!("unexpected {m:?}"),
    }
}

#[test]
fn metadata_finds_listed_version() {
    let f = NpmFetcher::new(false, vec![]);
    let pkg = resolved_package(registry_spec("a", None), "a", "1.1.0");
    let doc = packument("a", &["1.0.0", "1.1.0"]);
    let m = f.metadata(&pkg, &doc).unwrap();
    assert_eq!(m, manifest("a", "1.1.0"));
}

#[test]
fn tarball_is_resolution_url() {
    let f = NpmFetcher::new(false, vec![]);
    let pkg = resolved_package(registry_spec("a", None), "a", "1.0.0");
    assert_eq!(f.tarball(&pkg), "https://registry.example/a-1.0.0.tgz");
}

#[test]
fn requested_text_of_specs() {
    assert_eq!(registry_spec("a", None).requested(), "*");
    let ranged = PackageSpec::Registry { name: "a".to_string(), scope: None, requested: Some("^1.2.3".to_string()) };
    assert_eq!(ranged.requested(), "^1.2.3");
    let alias = PackageSpec::Alias {
        name: "foo".to_string(),
        spec: Box::new(PackageSpec::Registry {
            name: "bar".to_string(),
            scope: Some("s".to_string()),
            requested: Some("2".to_string()),
        }),
    };
    assert_eq!(alias.requested(), "npm:@s/bar@2");
    assert_eq!(PackageSpec::Dir { path: "../x".to_string() }.requested(), "../x");
}

#[test]
fn packument_version_lookup() {
    let doc = packument("a", &["1.0.0", "2.0.0"]);
    assert_eq!(doc.get_version(&"2.0.0".to_string()), Some(manifest("a", "2.0.0")));
    assert_eq!(doc.get_version(&"3.0.0".to_string()), None);
    assert_eq!(manifest("a", "1.0.0").copy(), manifest("a", "1.0.0"));
}

#[test]
fn name_of_alias_of_directory_is_alias_name() {
    let f = NpmFetcher::new(false, vec![]);
    let alias = PackageSpec::Alias { name: "local".to_string(), spec: Box::new(PackageSpec::Dir { path: "../x".to_string() }) };
    assert_eq!(f.name(&alias), "local");
}
