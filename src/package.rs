use vstd::prelude::*;

verus! {

/// What a dependent asked for: the request descriptor of a package.
#[derive(Debug)]
pub enum PackageSpec {
    /// A package hosted on a registry, optionally under a scope (`@scope/name`).
    Registry { name: String, scope: Option<String>, requested: Option<String> },
    /// A local name bound to another request ("install X as Y").
    Alias { name: String, spec: Box<PackageSpec> },
    /// A package taken from a local directory.
    Dir { path: String },
    /// A package taken from a version-control checkout.
    Git { url: String },
}

/// The concrete source that a request was resolved to.
#[derive(Debug, Clone, PartialEq, Eq)]
pub enum PackageResolution {
    Registry { version: String, tarball: String, integrity: Option<String> },
    Dir { path: String },
    Git { url: String },
}

/// A resolved identity: the originating request and what it resolved to.
#[derive(Debug)]
pub struct Package {
    pub from: PackageSpec,
    pub name: String,
    pub resolved: PackageResolution,
}

/// The kind of a declared requirement, in serialization precedence.
#[derive(PartialEq, Eq, Structural, Clone, Copy, Debug)]
pub enum DepType {
    Prod,
    Dev,
    Peer,
    Opt,
}

/// One dependency requirement inside a version's manifest.
#[derive(Debug, Clone, PartialEq, Eq)]
pub struct ManifestDep {
    pub name: String,
    pub requested: String,
}

/// The manifest of one published version.
#[derive(Debug, Clone, PartialEq, Eq)]
pub struct VersionMetadata {
    pub name: String,
    pub version: String,
    pub tarball: String,
    pub integrity: Option<String>,
    pub dependencies: Vec<ManifestDep>,
}

/// The registry document of one package name: every published version.
#[derive(Debug, Clone, PartialEq, Eq)]
pub struct Packument {
    pub versions: Vec<(String, VersionMetadata)>,
}

pub open spec fn opt_view(o: Option<String>) -> Option<Seq<char>> {
    match o {
        Some(s) => Some(s@),
        None => None,
    }
}

/// The text form of a version's manifest, field by field.
pub ghost struct MetadataView {
    pub name: Seq<char>,
    pub version: Seq<char>,
    pub tarball: Seq<char>,
    pub integrity: Option<Seq<char>>,
    pub dependencies: Seq<(Seq<char>, Seq<char>)>,
}

impl View for VersionMetadata {
    type V = MetadataView;

    open spec fn view(&self) -> MetadataView {
        MetadataView {
            name: self.name@,
            version: self.version@,
            tarball: self.tarball@,
            integrity: opt_view(self.integrity),
            dependencies: self.dependencies@.map_values(|d: ManifestDep| (d.name@, d.requested@)),
        }
    }
}

pub fn copy_opt_string(o: &Option<String>) -> (r: Option<String>)
    ensures
        opt_view(r) == opt_view(*o),
{
    match o {
        Some(s) => Some(s.clone()),
        None => None,
    }
}

impl VersionMetadata {
    /// A field-by-field copy.
    pub fn copy(&self) -> (r: VersionMetadata)
        ensures
            r@ == self@,
    {
        let mut deps: Vec<ManifestDep> = Vec::new();
        let mut i: usize = 0;
        while i < self.dependencies.len()
            invariant
                i <= self.dependencies@.len(),
                deps@.len() == i,
                forall|j: int| 0 <= j < i ==> #[trigger] deps@[j].name@ == self.dependencies@[j].name@
                    && deps@[j].requested@ == self.dependencies@[j].requested@,
            decreases self.dependencies@.len() - i,
        {
            let d = &self.dependencies[i];
            deps.push(ManifestDep { name: d.name.clone(), requested: d.requested.clone() });
            i = i + 1;
        }
        let r = VersionMetadata {
            name: self.name.clone(),
            version: self.version.clone(),
            tarball: self.tarball.clone(),
            integrity: copy_opt_string(&self.integrity),
            dependencies: deps,
        };
        assert(r@.dependencies =~= self@.dependencies);
        r
    }
}

/// The first manifest listed under `version`, if any.
pub open spec fn version_lookup(versions: Seq<(String, VersionMetadata)>, version: Seq<char>) -> Option<MetadataView>
    decreases versions.len(),
{
    if versions.len() == 0 {
        None
    } else if versions[0].0@ == version {
        Some(versions[0].1@)
    } else {
        version_lookup(versions.drop_first(), version)
    }
}

impl Packument {
    /// Each version is listed once.
    pub open spec fn wf(&self) -> bool {
        forall|i: int, j: int| 0 <= i < j < self.versions@.len()
            ==> #[trigger] self.versions@[i].0@ != #[trigger] self.versions@[j].0@
    }

    /// Looks up the manifest published under `version`.
    pub fn get_version(&self, version: &String) -> (r: Option<VersionMetadata>)
        ensures
            match r {
                Some(m) => version_lookup(self.versions@, version@) == Some(m@),
                None => version_lookup(self.versions@, version@) is None,
            },
    {
        let mut i: usize = 0;
        assert(self.versions@.skip(0) =~= self.versions@);
        while i < self.versions.len()
            invariant
                i <= self.versions@.len(),
                version_lookup(self.versions@, version@) == version_lookup(self.versions@.skip(i as int), version@),
            decreases self.versions@.len() - i,
        {
            assert(self.versions@.skip(i as int).drop_first() =~= self.versions@.skip(i + 1));
            if self.versions[i].0 == *version {
                return Some(self.versions[i].1.copy());
            }
            i = i + 1;
        }
        None
    }
}

/// With each version listed once, the lookup finds the manifest of the one
/// entry for that version, and nothing when no entry has it.
pub proof fn lemma_version_lookup_entry(versions: Seq<(String, VersionMetadata)>, i: int)
    requires
        0 <= i < versions.len(),
        forall|a: int, b: int| 0 <= a < b < versions.len() ==> #[trigger] versions[a].0@ != #[trigger] versions[b].0@,
    ensures
        version_lookup(versions, versions[i].0@) == Some(versions[i].1@),
    decreases versions.len(),
{
    if i > 0 {
        assert(versions[0].0@ != versions[i].0@);
        assert forall|a: int, b: int| 0 <= a < b < versions.drop_first().len() implies
            #[trigger] versions.drop_first()[a].0@ != #[trigger] versions.drop_first()[b].0@ by {
            assert(versions[a + 1].0@ != versions[b + 1].0@);
        }
        lemma_version_lookup_entry(versions.drop_first(), i - 1);
    }
}

/// The lookup finds nothing for a version that no entry lists.
pub proof fn lemma_version_lookup_absent(versions: Seq<(String, VersionMetadata)>, version: Seq<char>)
    requires
        forall|i: int| 0 <= i < versions.len() ==> #[trigger] versions[i].0@ != version,
    ensures
        version_lookup(versions, version) is None,
    decreases versions.len(),
{
    if versions.len() > 0 {
        assert(versions[0].0@ != version);
        assert forall|i: int| 0 <= i < versions.drop_first().len() implies #[trigger] versions.drop_first()[i].0@ != version by {
            assert(versions[i + 1].0@ != version);
        }
        lemma_version_lookup_absent(versions.drop_first(), version);
    }
}

/// The fully qualified registry name: `@scope/name`, or `name` without a scope.
pub open spec fn qualified_name(name: Seq<char>, scope: Option<Seq<char>>) -> Seq<char> {
    match scope {
        Some(s) => seq!['@'] + s + seq!['/'] + name,
        None => name,
    }
}

/// The specifier text that a request was written with.
pub open spec fn requested_text(spec: PackageSpec) -> Seq<char>
    decreases spec,
{
    match spec {
        PackageSpec::Registry { requested, .. } => match requested {
            Some(r) => r@,
            None => seq!['*'],
        },
        PackageSpec::Alias { spec: inner, .. } => match *inner {
            PackageSpec::Registry { name, scope, .. } => seq!['n', 'p', 'm', ':'] + qualified_name(
                name@,
                opt_view(scope),
            ) + seq!['@'] + requested_text(*inner),
            _ => requested_text(*inner),
        },
        PackageSpec::Dir { path } => path@,
        PackageSpec::Git { url } => url@,
    }
}

/// Builds the fully qualified registry name.
pub fn make_qualified_name(name: &String, scope: &Option<String>) -> (r: String)
    ensures
        r@ == qualified_name(name@, opt_view(*scope)),
{
    match scope {
        Some(s) => {
            let mut out = String::from_str("@");
            out.append(s.as_str());
            out.append("/");
            out.append(name.as_str());
            proof { reveal_strlit("@"); reveal_strlit("/"); }
            assert(out@ =~= qualified_name(name@, opt_view(*scope)));
            out
        },
        None => name.clone(),
    }
}

impl PackageSpec {
    /// The specifier text of this request, as it is recorded in a lock document.
    pub fn requested(&self) -> (r: String)
        ensures
            r@ == requested_text(*self),
        decreases *self,
    {
        match self {
            PackageSpec::Registry { requested, .. } => match requested {
                Some(r) => r.clone(),
                None => {
                    proof { reveal_strlit("*"); }
                    String::from_str("*")
                },
            },
            PackageSpec::Alias { spec: inner, .. } => {
                let inner_text = inner.requested();
                match &**inner {
                    PackageSpec::Registry { name, scope, .. } => {
                        let mut out = String::from_str("npm:");
                        let q = make_qualified_name(name, scope);
                        out.append(q.as_str());
                        out.append("@");
                        out.append(inner_text.as_str());
                        proof { reveal_strlit("npm:"); reveal_strlit("@"); }
                        assert(out@ =~= requested_text(*self));
                        out
                    },
                    _ => inner_text,
                }
            },
            PackageSpec::Dir { path } => path.clone(),
            PackageSpec::Git { url } => url.clone(),
        }
    }
}

/// The string form of a resolution: where its content comes from.
pub open spec fn descriptor_text(r: PackageResolution) -> Seq<char> {
    match r {
        PackageResolution::Registry { tarball, .. } => tarball@,
        PackageResolution::Dir { path } => path@,
        PackageResolution::Git { url } => url@,
    }
}

impl PackageResolution {
    pub fn descriptor(&self) -> (r: String)
        ensures
            r@ == descriptor_text(*self),
    {
        match self {
            PackageResolution::Registry { tarball, .. } => tarball.clone(),
            PackageResolution::Dir { path } => path.clone(),
            PackageResolution::Git { url } => url.clone(),
        }
    }
}

impl Package {
    pub fn new(from: PackageSpec, name: String, resolved: PackageResolution) -> (r: Package)
        ensures
            r.from == from,
            r.name == name,
            r.resolved == resolved,
    {
        Package { from, name, resolved }
    }

    pub fn name(&self) -> (r: &String)
        ensures
            r == self.name,
    {
        &self.name
    }

    pub fn from(&self) -> (r: &PackageSpec)
        ensures
            r == self.from,
    {
        &self.from
    }

    pub fn resolved(&self) -> (r: &PackageResolution)
        ensures
            r == self.resolved,
    {
        &self.resolved
    }
}

} // verus!
