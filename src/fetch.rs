use vstd::prelude::*;
use std::sync::Arc;
use dashmap::DashMap;
use crate::package::{
    make_qualified_name, opt_view, qualified_name, version_lookup, MetadataView, Package,
    PackageResolution, PackageSpec, Packument, VersionMetadata,
};

verus! {

#[verifier::external_type_specification]
#[verifier::external_body]
#[verifier::reject_recursive_types(K)]
#[verifier::reject_recursive_types(V)]
#[verifier::reject_recursive_types(S)]
pub struct ExDashMap<K, V, S>(DashMap<K, V, S>);

pub type PackumentCache = DashMap<String, Arc<Packument>>;

pub type CacheMap = Map<Seq<char>, Packument>;

/// The documents that a packument cache holds, by fully qualified name.
pub uninterp spec fn cache_contents(m: PackumentCache) -> Map<Seq<char>, Packument>;

/// Relies on `DashMap::new`: an empty map.
#[verifier::external_body]
fn cache_new() -> (r: PackumentCache)
    ensures
        cache_contents(r) == CacheMap::empty(),
{
    DashMap::new()
}

/// Relies on `DashMap::get`: the value under the key, if any (a shared handle to it).
#[verifier::external_body]
fn cache_get(m: &PackumentCache, key: &String) -> (r: Option<Arc<Packument>>)
    ensures
        r.is_some() == cache_contents(*m).contains_key(key@),
        r matches Some(p) ==> *p == cache_contents(*m)[key@],
{
    m.get(key).map(|entry| entry.value().clone())
}

/// Relies on `DashMap::insert`: the key now maps to the value (the last
/// insert wins), every other key keeps its value.
#[verifier::external_body]
fn cache_insert(m: &mut PackumentCache, key: String, value: Arc<Packument>)
    ensures
        cache_contents(*final(m)) == cache_contents(*old(m)).insert(key@, *value),
{
    m.insert(key, value);
}

/// The public registry, used when no default registry is configured.
pub const PUBLIC_REGISTRY: &'static str = "https://registry.npmjs.org/";

/// Fetches package documents from a registry, keeping each packument in a
/// cache keyed by fully qualified name.
///
/// The cache is filled in two steps around the network request, so two
/// concurrent first requests for one name may both fetch it; the later
/// insert wins. Both documents are taken to be equivalent.
pub struct NpmFetcher {
    /// Ask for the compact ("corgi") form of every packument.
    pub use_corgi: bool,
    /// Registry base URLs by scope; the `None` entry is the default registry.
    pub registries: Vec<(Option<String>, String)>,
    pub packuments: PackumentStore,
}

/// A concurrent map from fully qualified name to packument. The map is
/// private, so that every change to it goes through `&mut` and is seen here.
pub struct PackumentStore {
    map: PackumentCache,
}

impl PackumentStore {
    /// The documents held, by fully qualified name.
    pub closed spec fn contents(&self) -> Map<Seq<char>, Packument> {
        cache_contents(self.map)
    }

    pub fn new() -> (r: PackumentStore)
        ensures
            r.contents() == CacheMap::empty(),
    {
        PackumentStore { map: cache_new() }
    }

    /// The document held under `key`, if any.
    pub fn get(&self, key: &String) -> (r: Option<Arc<Packument>>)
        ensures
            r.is_some() == self.contents().contains_key(key@),
            r matches Some(p) ==> *p == self.contents()[key@],
    {
        cache_get(&self.map, key)
    }

    /// Puts `value` under `key`, replacing what was there.
    pub fn insert(&mut self, key: String, value: Arc<Packument>)
        ensures
            final(self).contents() == old(self).contents().insert(key@, *value),
    {
        cache_insert(&mut self.map, key, value);
    }
}

/// What the caller must fetch to answer a packument request.
#[derive(Debug, Clone, PartialEq, Eq)]
pub struct PackumentRequest {
    /// The fully qualified package name: the document's path on the registry.
    pub name: String,
    /// The registry base URL to send the request to.
    pub registry: String,
    /// Ask for the compact form of the document.
    pub corgi: bool,
}

/// The answer to a packument request: the cached document, or the request
/// that must be made.
pub enum PackumentStep {
    Cached(Arc<Packument>),
    Fetch(PackumentRequest),
}

/// The failures of a fetch that reach the user.
#[derive(Debug)]
pub enum FetchError {
    /// The packument lists no such version; carries the request and the version.
    MissingVersion(PackageSpec, String),
}

/// Whether a fetcher of registry packages can handle `spec`.
pub open spec fn is_registry_spec(spec: PackageSpec) -> bool {
    match spec {
        PackageSpec::Registry { .. } => true,
        PackageSpec::Alias { spec: inner, .. } => *inner is Registry,
        _ => false,
    }
}

/// The name that a registry request is known by: the alias name for an alias.
pub open spec fn spec_name(spec: PackageSpec) -> Seq<char> {
    match spec {
        PackageSpec::Registry { name, .. } => name@,
        PackageSpec::Alias { name, .. } => name@,
        _ => Seq::empty(),
    }
}

/// The key of a request's packument: the fully qualified name of the
/// registry package, looking through an alias.
pub open spec fn packument_key(spec: PackageSpec) -> Seq<char> {
    match spec {
        PackageSpec::Registry { name, scope, .. } => qualified_name(name@, opt_view(scope)),
        PackageSpec::Alias { spec: inner, .. } => match *inner {
            PackageSpec::Registry { name, scope, .. } => qualified_name(name@, opt_view(scope)),
            _ => Seq::empty(),
        },
        _ => Seq::empty(),
    }
}

/// The scope of the registry package a request names, looking through an alias.
pub open spec fn packument_scope(spec: PackageSpec) -> Option<Seq<char>> {
    match spec {
        PackageSpec::Registry { scope, .. } => opt_view(scope),
        PackageSpec::Alias { spec: inner, .. } => match *inner {
            PackageSpec::Registry { scope, .. } => opt_view(scope),
            _ => None,
        },
        _ => None,
    }
}

/// No two registry entries are for the same scope.
pub open spec fn scopes_distinct(regs: Seq<(Option<String>, String)>) -> bool {
    forall|i: int, j: int| 0 <= i < j < regs.len() ==> #[trigger] opt_view(regs[i].0) != #[trigger] opt_view(regs[j].0)
}

/// The URL configured for exactly `scope`: the first matching entry.
pub open spec fn registry_entry(regs: Seq<(Option<String>, String)>, scope: Option<Seq<char>>) -> Option<Seq<char>>
    decreases regs.len(),
{
    if regs.len() == 0 {
        None
    } else if opt_view(regs[0].0) == scope {
        Some(regs[0].1@)
    } else {
        registry_entry(regs.drop_first(), scope)
    }
}

/// The registry that serves `scope`: its own entry, else the default entry,
/// else the public registry.
pub open spec fn registry_for(regs: Seq<(Option<String>, String)>, scope: Option<Seq<char>>) -> Seq<char> {
    match registry_entry(regs, scope) {
        Some(u) => u,
        None => match registry_entry(regs, None) {
            Some(u) => u,
            None => PUBLIC_REGISTRY@,
        },
    }
}

fn find_registry(regs: &Vec<(Option<String>, String)>, scope: &Option<String>) -> (r: Option<String>)
    ensures
        opt_view(r) == registry_entry(regs@, opt_view(*scope)),
{
    let mut i: usize = 0;
    assert(regs@.skip(0) =~= regs@);
    while i < regs.len()
        invariant
            i <= regs@.len(),
            registry_entry(regs@, opt_view(*scope)) == registry_entry(regs@.skip(i as int), opt_view(*scope)),
        decreases regs@.len() - i,
    {
        assert(regs@.skip(i as int).drop_first() =~= regs@.skip(i + 1));
        let same = match (&regs[i].0, scope) {
            (Some(a), Some(b)) => *a == *b,
            (None, None) => true,
            _ => false,
        };
        if same {
            return Some(regs[i].1.clone());
        }
        i = i + 1;
    }
    None
}

impl PackageSpec {
    /// A field-by-field copy.
    pub fn copy(&self) -> (r: PackageSpec)
        ensures
            r == *self,
        decreases *self,
    {
        match self {
            PackageSpec::Registry { name, scope, requested } => PackageSpec::Registry {
                name: name.clone(),
                scope: match scope {
                    Some(s) => Some(s.clone()),
                    None => None,
                },
                requested: match requested {
                    Some(s) => Some(s.clone()),
                    None => None,
                },
            },
            PackageSpec::Alias { name, spec } => PackageSpec::Alias {
                name: name.clone(),
                spec: Box::new(spec.copy()),
            },
            PackageSpec::Dir { path } => PackageSpec::Dir { path: path.clone() },
            PackageSpec::Git { url } => PackageSpec::Git { url: url.clone() },
        }
    }
}

impl NpmFetcher {
    /// The packuments the cache holds, by fully qualified name.
    pub open spec fn cache(&self) -> Map<Seq<char>, Packument> {
        self.packuments.contents()
    }

    /// Each scope has at most one registry entry.
    pub open spec fn wf(&self) -> bool {
        scopes_distinct(self.registries@)
    }

    /// A fetcher with an empty packument cache.
    pub fn new(use_corgi: bool, registries: Vec<(Option<String>, String)>) -> (r: NpmFetcher)
        requires
            scopes_distinct(registries@),
        ensures
            r.wf(),
            r.use_corgi == use_corgi,
            r.registries == registries,
            r.cache() == CacheMap::empty(),
    {
        NpmFetcher { use_corgi, registries, packuments: PackumentStore::new() }
    }

    /// The registry base URL that serves packages of `scope`.
    pub fn pick_registry(&self, scope: &Option<String>) -> (r: String)
        ensures
            r@ == registry_for(self.registries@, opt_view(*scope)),
    {
        match find_registry(&self.registries, scope) {
            Some(u) => u,
            None => match find_registry(&self.registries, &None) {
                Some(u) => u,
                None => String::from_str(PUBLIC_REGISTRY),
            },
        }
    }

    /// The name a request is installed under: the alias name for an alias.
    pub fn name(&self, spec: &PackageSpec) -> (r: String)
        requires
            spec is Registry || spec is Alias,
        ensures
            r@ == spec_name(*spec),
    {
        match spec {
            PackageSpec::Registry { name, .. } => name.clone(),
            PackageSpec::Alias { name, .. } => name.clone(),
            _ => String::new(),
        }
    }

    /// The fully qualified name of the registry package behind a request.
    pub fn packument_name(&self, spec: &PackageSpec) -> (r: String)
        requires
            is_registry_spec(*spec),
        ensures
            r@ == packument_key(*spec),
    {
        match spec {
            PackageSpec::Registry { name, scope, .. } => make_qualified_name(name, scope),
            PackageSpec::Alias { spec: inner, .. } => match &**inner {
                PackageSpec::Registry { name, scope, .. } => make_qualified_name(name, scope),
                _ => String::new(),
            },
            _ => String::new(),
        }
    }

    /// Answers a packument request from the cache when it holds the name;
    /// otherwise says which document to fetch from which registry.
    pub fn packument(&self, spec: &PackageSpec) -> (r: PackumentStep)
        requires
            is_registry_spec(*spec),
        ensures
            match r {
                PackumentStep::Cached(p) => self.cache().contains_key(packument_key(*spec))
                    && *p == self.cache()[packument_key(*spec)],
                PackumentStep::Fetch(req) => !self.cache().contains_key(packument_key(*spec))
                    && req.name@ == packument_key(*spec)
                    && req.registry@ == registry_for(self.registries@, packument_scope(*spec))
                    && req.corgi == self.use_corgi,
            },
    {
        let name = self.packument_name(spec);
        match self.packuments.get(&name) {
            Some(p) => PackumentStep::Cached(p),
            None => {
                let registry = match spec {
                    PackageSpec::Registry { scope, .. } => self.pick_registry(scope),
                    PackageSpec::Alias { spec: inner, .. } => match &**inner {
                        PackageSpec::Registry { scope, .. } => self.pick_registry(scope),
                        _ => String::new(),
                    },
                    _ => String::new(),
                };
                PackumentStep::Fetch(PackumentRequest { name, registry, corgi: self.use_corgi })
            },
        }
    }

    /// Records a fetched packument under the request's key and hands back the
    /// shared handle. A document already there is replaced.
    pub fn store_packument(&mut self, spec: &PackageSpec, packument: Packument) -> (r: Arc<Packument>)
        requires
            is_registry_spec(*spec),
        ensures
            *r == packument,
            final(self).cache() == old(self).cache().insert(packument_key(*spec), packument),
            final(self).use_corgi == old(self).use_corgi,
            final(self).registries == old(self).registries,
    {
        let name = self.packument_name(spec);
        let p = Arc::new(packument);
        let handle = Arc::clone(&p);
        self.packuments.insert(name, p);
        handle
    }

    /// The manifest of the version that `pkg` resolved to, looked up in its
    /// packument; `MissingVersion` when the packument does not list it.
    pub fn metadata(&self, pkg: &Package, packument: &Packument) -> (r: Result<VersionMetadata, FetchError>)
        requires
            pkg.resolved is Registry,
        ensures
            match (pkg.resolved, r) {
                (PackageResolution::Registry { version, .. }, Ok(m)) =>
                    version_lookup(packument.versions@, version@) == Some(m@),
                (PackageResolution::Registry { version, .. }, Err(FetchError::MissingVersion(s, v))) =>
                    version_lookup(packument.versions@, version@) is None
                    && s == pkg.from && v == version,
                _ => false,
            },
    {
        let wanted = match &pkg.resolved {
            PackageResolution::Registry { version, .. } => version,
            _ => { return Err(FetchError::MissingVersion(pkg.from.copy(), String::new())); },
        };
        match packument.get_version(wanted) {
            Some(m) => Ok(m),
            None => Err(FetchError::MissingVersion(pkg.from.copy(), wanted.clone())),
        }
    }

    /// The content URL of a registry-resolved package.
    pub fn tarball(&self, pkg: &Package) -> (r: String)
        requires
            pkg.resolved is Registry,
        ensures
            pkg.resolved matches PackageResolution::Registry { tarball, .. } && r@ == tarball@,
    {
        match &pkg.resolved {
            PackageResolution::Registry { tarball, .. } => tarball.clone(),
            _ => String::new(),
        }
    }
}

} // verus!

verus! {

/// A fetcher whose only registry entry is the default one sends every
/// request, scoped or not, to that default registry.
pub proof fn lemma_registry_fallback(regs: Seq<(Option<String>, String)>, scope: Option<Seq<char>>)
    requires
        regs.len() == 1,
        regs[0].0 is None,
    ensures
        registry_for(regs, scope) == regs[0].1@,
{
    assert(regs.drop_first().len() == 0);
    if scope is Some {
        assert(registry_entry(regs.drop_first(), scope) is None);
        assert(registry_entry(regs, scope) is None);
    }
}

/// An alias is installed under its own name, while its packument is the one
/// of the registry package it stands for.
pub proof fn lemma_alias_identity(alias: String, target: String, scope: Option<String>, requested: Option<String>)
    ensures
        ({
            let spec = PackageSpec::Alias {
                name: alias,
                spec: Box::new(PackageSpec::Registry { name: target, scope, requested }),
            };
            &&& spec_name(spec) == alias@
            &&& packument_key(spec) == qualified_name(target@, opt_view(scope))
            &&& packument_key(spec) == packument_key(PackageSpec::Registry { name: target, scope, requested })
        }),
{
}

/// Once a packument has been stored for a request, the cache answers every
/// later request for the same fully qualified name with that document, so
/// no second fetch is made.
pub proof fn lemma_cache_idempotent(before: NpmFetcher, after: NpmFetcher, spec: PackageSpec, other: PackageSpec, p: Packument)
    requires
        after.cache() == before.cache().insert(packument_key(spec), p),
        packument_key(other) == packument_key(spec),
    ensures
        after.cache().contains_key(packument_key(other)),
        after.cache()[packument_key(other)] == p,
{
}

} // verus!
