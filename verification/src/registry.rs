use vstd::prelude::*;
use crate::text::{clone_dep_map, clone_opt_string, clone_pairs, string_eq, spec_starts_with,
    str_starts_with};
use crate::version::{is_exact_version, spec_is_exact_version};
use crate::hashing::{sha1_hex, sha1_hex_of};

verus! {

/// Where a concrete version's tarball lives, and its expected SHA-1 digest in
/// lowercase hex.
pub struct DistInfo {
    pub tarball: String,
    pub shasum: String,
}

/// Character-level contents of a `DistInfo`.
pub ghost struct DistModel {
    pub tarball: Seq<char>,
    pub shasum: Seq<char>,
}

impl View for DistInfo {
    type V = DistModel;

    open spec fn view(&self) -> DistModel {
        DistModel { tarball: self.tarball@, shasum: self.shasum@ }
    }
}

impl DistInfo {
    /// A field-for-field copy.
    pub fn duplicate(&self) -> (r: Self)
        ensures
            r@ == self@,
    {
        DistInfo { tarball: self.tarball.clone(), shasum: self.shasum.clone() }
    }
}

/// The executable entries a package declares: none, the short string form
/// (one command named after the package), or a table of command names to
/// paths inside the package.
pub enum BinSpec {
    Missing,
    Single(String),
    Table(Vec<(String, String)>),
}

/// Character-level contents of a `BinSpec`.
pub ghost enum BinModel {
    Missing,
    Single(Seq<char>),
    Table(Seq<(Seq<char>, Seq<char>)>),
}

impl View for BinSpec {
    type V = BinModel;

    open spec fn view(&self) -> BinModel {
        match self {
            BinSpec::Missing => BinModel::Missing,
            BinSpec::Single(s) => BinModel::Single(s@),
            BinSpec::Table(t) => BinModel::Table(t.deep_view()),
        }
    }
}

impl BinSpec {
    /// A field-for-field copy.
    pub fn duplicate(&self) -> (r: Self)
        ensures
            r@ == self@,
    {
        match self {
            BinSpec::Missing => BinSpec::Missing,
            BinSpec::Single(s) => BinSpec::Single(s.clone()),
            BinSpec::Table(t) => BinSpec::Table(clone_pairs(t)),
        }
    }
}

/// The registry's description of one concrete package version. Immutable
/// once fetched.
pub struct PackageInfo {
    pub name: String,
    pub version: String,
    pub description: Option<String>,
    pub main: Option<String>,
    pub bin: BinSpec,
    pub dependencies: Option<Vec<(String, String)>>,
    pub peer_dependencies: Option<Vec<(String, String)>>,
    pub optional_dependencies: Option<Vec<(String, String)>>,
    pub dist: DistInfo,
}

/// Character-level contents of a `PackageInfo`.
pub ghost struct InfoModel {
    pub name: Seq<char>,
    pub version: Seq<char>,
    pub description: Option<Seq<char>>,
    pub main: Option<Seq<char>>,
    pub bin: BinModel,
    pub dependencies: Option<Seq<(Seq<char>, Seq<char>)>>,
    pub peer_dependencies: Option<Seq<(Seq<char>, Seq<char>)>>,
    pub optional_dependencies: Option<Seq<(Seq<char>, Seq<char>)>>,
    pub dist: DistModel,
}

impl View for PackageInfo {
    type V = InfoModel;

    open spec fn view(&self) -> InfoModel {
        InfoModel {
            name: self.name@,
            version: self.version@,
            description: self.description.deep_view(),
            main: self.main.deep_view(),
            bin: self.bin@,
            dependencies: self.dependencies.deep_view(),
            peer_dependencies: self.peer_dependencies.deep_view(),
            optional_dependencies: self.optional_dependencies.deep_view(),
            dist: self.dist@,
        }
    }
}

impl PackageInfo {
    /// A field-for-field copy.
    pub fn duplicate(&self) -> (r: Self)
        ensures
            r@ == self@,
    {
        PackageInfo {
            name: self.name.clone(),
            version: self.version.clone(),
            description: clone_opt_string(&self.description),
            main: clone_opt_string(&self.main),
            bin: self.bin.duplicate(),
            dependencies: clone_dep_map(&self.dependencies),
            peer_dependencies: clone_dep_map(&self.peer_dependencies),
            optional_dependencies: clone_dep_map(&self.optional_dependencies),
            dist: self.dist.duplicate(),
        }
    }
}

/// The registry's aggregate record for one package name: a map from concrete
/// version to its description, and a map of distribution tags.
pub struct NpmRegistryResponse {
    pub versions: Vec<(String, PackageInfo)>,
    pub dist_tags: Vec<(String, String)>,
}

/// Some version entry carries this version string.
pub open spec fn has_version(vs: Seq<(String, PackageInfo)>, v: Seq<char>) -> bool {
    exists|i: int| 0 <= i < vs.len() && (#[trigger] vs[i].0@) == v
}

/// The index of the entry for this version string.
pub open spec fn version_ix(vs: Seq<(String, PackageInfo)>, v: Seq<char>) -> int {
    choose|i: int| 0 <= i < vs.len() && (#[trigger] vs[i].0@) == v
}

/// The description recorded for this version string.
pub open spec fn version_entry(vs: Seq<(String, PackageInfo)>, v: Seq<char>) -> PackageInfo {
    vs[version_ix(vs, v)].1
}

/// Some distribution tag carries this tag name.
pub open spec fn has_tag(ts: Seq<(String, String)>, t: Seq<char>) -> bool {
    exists|i: int| 0 <= i < ts.len() && (#[trigger] ts[i].0@) == t
}

/// The index of the entry for this tag name.
pub open spec fn tag_ix(ts: Seq<(String, String)>, t: Seq<char>) -> int {
    choose|i: int| 0 <= i < ts.len() && (#[trigger] ts[i].0@) == t
}

/// The version string a tag is bound to.
pub open spec fn tag_value(ts: Seq<(String, String)>, t: Seq<char>) -> Seq<char> {
    ts[tag_ix(ts, t)].1@
}

/// Version keys and tag names are each pairwise distinct.
pub open spec fn wf_response(r: NpmRegistryResponse) -> bool {
    &&& forall|i: int, j: int|
        0 <= i < j < r.versions@.len() ==> (#[trigger] r.versions@[i].0@) != (
        #[trigger] r.versions@[j].0@)
    &&& forall|i: int, j: int|
        0 <= i < j < r.dist_tags@.len() ==> (#[trigger] r.dist_tags@[i].0@) != (
        #[trigger] r.dist_tags@[j].0@)
}

/// Under distinct keys, a version hit is the unique witness.
pub proof fn lemma_version_ix_unique(r: NpmRegistryResponse, v: Seq<char>, i: int)
    requires
        wf_response(r),
        0 <= i < r.versions@.len(),
        r.versions@[i].0@ == v,
    ensures
        has_version(r.versions@, v),
        version_ix(r.versions@, v) == i,
{
    assert(has_version(r.versions@, v));
    let k = version_ix(r.versions@, v);
    if k != i {
        if k < i {
            assert(r.versions@[k].0@ != r.versions@[i].0@);
        } else {
            assert(r.versions@[i].0@ != r.versions@[k].0@);
        }
    }
}

/// Under distinct tag names, a tag hit is the unique witness.
pub proof fn lemma_tag_ix_unique(r: NpmRegistryResponse, t: Seq<char>, i: int)
    requires
        wf_response(r),
        0 <= i < r.dist_tags@.len(),
        r.dist_tags@[i].0@ == t,
    ensures
        has_tag(r.dist_tags@, t),
        tag_ix(r.dist_tags@, t) == i,
{
    assert(has_tag(r.dist_tags@, t));
    let k = tag_ix(r.dist_tags@, t);
    if k != i {
        if k < i {
            assert(r.dist_tags@[k].0@ != r.dist_tags@[i].0@);
        } else {
            assert(r.dist_tags@[i].0@ != r.dist_tags@[k].0@);
        }
    }
}

/// The description bound to the `latest` distribution tag, when both the tag
/// and the version it names exist.
pub open spec fn spec_latest(r: NpmRegistryResponse) -> Option<PackageInfo> {
    if has_tag(r.dist_tags@, "latest"@) && has_version(
        r.versions@,
        tag_value(r.dist_tags@, "latest"@),
    ) {
        Option::Some(version_entry(r.versions@, tag_value(r.dist_tags@, "latest"@)))
    } else {
        Option::None
    }
}

/// What `get_version` returns: the literal `latest` goes through the tag,
/// anything else is looked up as a concrete version.
pub open spec fn spec_lookup(r: NpmRegistryResponse, version: Seq<char>) -> Option<PackageInfo> {
    if version == "latest"@ {
        spec_latest(r)
    } else if has_version(r.versions@, version) {
        Option::Some(version_entry(r.versions@, version))
    } else {
        Option::None
    }
}

/// The selection policy: `latest` and every non-exact spec resolve to the
/// `latest` tag; an exact spec must match a concrete version.
pub open spec fn spec_select(r: NpmRegistryResponse, version_spec: Seq<char>) -> Option<
    PackageInfo,
> {
    if version_spec == "latest"@ {
        spec_latest(r)
    } else if spec_is_exact_version(version_spec) {
        if has_version(r.versions@, version_spec) {
            Option::Some(version_entry(r.versions@, version_spec))
        } else {
            Option::None
        }
    } else {
        spec_latest(r)
    }
}

impl NpmRegistryResponse {
    /// Index of the entry for this concrete version.
    fn find_version(&self, version: &str) -> (r: Option<usize>)
        ensures
            match r {
                Some(i) => i < self.versions@.len() && self.versions@[i as int].0@ == version@,
                None => !has_version(self.versions@, version@),
            },
    {
        let mut i: usize = 0;
        while i < self.versions.len()
            invariant
                i <= self.versions@.len(),
                forall|j: int| 0 <= j < i ==> (#[trigger] self.versions@[j].0@) != version@,
            decreases self.versions@.len() - i,
        {
            if string_eq(self.versions[i].0.as_str(), version) {
                return Some(i);
            }
            i = i + 1;
        }
        None
    }

    /// The version string bound to a tag.
    fn find_tag(&self, tag: &str) -> (r: Option<usize>)
        ensures
            match r {
                Some(i) => i < self.dist_tags@.len() && self.dist_tags@[i as int].0@ == tag@,
                None => !has_tag(self.dist_tags@, tag@),
            },
    {
        let mut i: usize = 0;
        while i < self.dist_tags.len()
            invariant
                i <= self.dist_tags@.len(),
                forall|j: int| 0 <= j < i ==> (#[trigger] self.dist_tags@[j].0@) != tag@,
            decreases self.dist_tags@.len() - i,
        {
            if string_eq(self.dist_tags[i].0.as_str(), tag) {
                return Some(i);
            }
            i = i + 1;
        }
        None
    }

    /// The description bound to the `latest` tag, if the tag and the version
    /// it names both exist.
    pub fn get_latest_version(&self) -> (r: Option<&PackageInfo>)
        requires
            wf_response(*self),
        ensures
            match r {
                Some(p) => spec_latest(*self) == Option::Some(*p),
                None => spec_latest(*self) is None,
            },
    {
        match self.find_tag("latest") {
            None => None,
            Some(t) => {
                proof {
                    lemma_tag_ix_unique(*self, "latest"@, t as int);
                }
                match self.find_version(self.dist_tags[t].1.as_str()) {
                    None => None,
                    Some(i) => {
                        proof {
                            lemma_version_ix_unique(
                                *self,
                                tag_value(self.dist_tags@, "latest"@),
                                i as int,
                            );
                        }
                        Some(&self.versions[i].1)
                    },
                }
            },
        }
    }

    /// Looks a version up; the literal `latest` goes through the tag map.
    pub fn get_version(&self, version: &str) -> (r: Option<&PackageInfo>)
        requires
            wf_response(*self),
        ensures
            match r {
                Some(p) => spec_lookup(*self, version@) == Option::Some(*p),
                None => spec_lookup(*self, version@) is None,
            },
    {
        if string_eq(version, "latest") {
            self.get_latest_version()
        } else {
            match self.find_version(version) {
                None => None,
                Some(i) => {
                    proof {
                        lemma_version_ix_unique(*self, version@, i as int);
                    }
                    Some(&self.versions[i].1)
                },
            }
        }
    }

    /// Applies the selection policy to a version spec.
    pub fn select_version(&self, version_spec: &str) -> (r: Option<&PackageInfo>)
        requires
            wf_response(*self),
        ensures
            match r {
                Some(p) => spec_select(*self, version_spec@) == Option::Some(*p),
                None => spec_select(*self, version_spec@) is None,
            },
    {
        if string_eq(version_spec, "latest") {
            self.get_latest_version()
        } else if is_exact_version(version_spec) {
            match self.find_version(version_spec) {
                None => None,
                Some(i) => {
                    proof {
                        lemma_version_ix_unique(*self, version_spec@, i as int);
                    }
                    Some(&self.versions[i].1)
                },
            }
        } else {
            self.get_latest_version()
        }
    }
}

impl NpmRegistryResponse {
    /// The concrete version a spec settles on as text: an exact spec names
    /// itself, anything else goes to the `latest` tag.
    pub fn resolve_version_range(&self, version_range: &str) -> (r: Option<String>)
        requires
            wf_response(*self),
        ensures
            spec_is_exact_version(version_range@) ==> (r matches Some(v) && v@ == version_range@),
            !spec_is_exact_version(version_range@) ==> (match r {
                Some(v) => spec_latest(*self) matches Option::Some(pi) && pi.version@ == v@,
                None => spec_latest(*self) is None,
            }),
    {
        if is_exact_version(version_range) {
            Some(version_range.to_owned())
        } else {
            match self.get_latest_version() {
                Some(info) => Some(info.version.clone()),
                None => None,
            }
        }
    }
}

/// The default registry base URL.
pub open spec fn spec_default_registry() -> Seq<char> {
    "https://registry.npmjs.org"@
}

/// An absolute tarball URL is kept; a registry-relative one is resolved
/// against the registry base, inserting a slash when missing.
pub open spec fn spec_tarball_url(base: Seq<char>, t: Seq<char>) -> Seq<char> {
    if spec_starts_with(t, "http"@) {
        t
    } else if t.len() > 0 && t[0] == '/' {
        base + t
    } else {
        base + "/"@ + t
    }
}

/// The pure face of the registry client: URL construction and integrity
/// checking. The HTTP transport lives outside the library and hands bytes
/// back in.
pub struct NpmClient {
    pub registry_url: String,
}

impl NpmClient {
    /// A client against the default public registry.
    pub fn new() -> (r: Self)
        ensures
            r.registry_url@ == spec_default_registry(),
    {
        NpmClient { registry_url: String::from_str("https://registry.npmjs.org") }
    }

    /// The metadata URL for a package name.
    pub fn info_url(&self, package_name: &str) -> (r: String)
        ensures
            r@ == self.registry_url@ + "/"@ + package_name@,
    {
        let mut s = self.registry_url.clone();
        s.append("/");
        s.append(package_name);
        s
    }

    /// The absolute URL a tarball must be fetched from: relative forms
    /// resolve against this client's registry base.
    pub fn tarball_url(&self, dist_tarball: &str) -> (r: String)
        ensures
            r@ == spec_tarball_url(self.registry_url@, dist_tarball@),
    {
        if str_starts_with(dist_tarball, "http") {
            return dist_tarball.to_owned();
        }
        let mut s = self.registry_url.clone();
        let n = dist_tarball.unicode_len();
        if !(n > 0 && dist_tarball.get_char(0) == '/') {
            s.append("/");
        }
        s.append(dist_tarball);
        s
    }

    /// The downloaded bytes hash to the digest the registry declared.
    pub fn verify_package_integrity(&self, file_data: &[u8], expected_shasum: &str) -> (r: bool)
        ensures
            r == (sha1_hex_of(file_data@) == expected_shasum@),
    {
        let computed = sha1_hex(file_data);
        string_eq(computed.as_str(), expected_shasum)
    }
}

} // verus!
