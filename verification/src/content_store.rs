use vstd::prelude::*;
use crate::archive::{gzip_bytes, gzip_of, manifest_deps_of, parse_manifest_deps, tar_entries_of,
    tar_entry_list};
use crate::errors::PkgError;
use crate::hashing::{sha1_hex, sha1_hex_of};
use crate::text::{key_of, make_key, spec_ends_with, str_ends_with, string_eq, vec_contains_str};
use crate::trees::DependencyTree;

verus! {

/// The content address of one stored object: the SHA-1 hex digest of the raw
/// tarball, its byte length, and the digest the registry declared for it.
pub struct ContentAddress {
    pub hash: String,
    pub size: u64,
    pub integrity: String,
}

/// Character-level contents of a `ContentAddress`.
pub ghost struct AddrModel {
    pub hash: Seq<char>,
    pub size: u64,
    pub integrity: Seq<char>,
}

impl View for ContentAddress {
    type V = AddrModel;

    open spec fn view(&self) -> AddrModel {
        AddrModel { hash: self.hash@, size: self.size, integrity: self.integrity@ }
    }
}

impl ContentAddress {
    /// A field-for-field copy.
    pub fn duplicate(&self) -> (r: Self)
        ensures
            r@ == self@,
    {
        ContentAddress {
            hash: self.hash.clone(),
            size: self.size,
            integrity: self.integrity.clone(),
        }
    }
}

/// The store's per-version record: what was stored under `name@version`, the
/// object it points at, the dependency map found inside the tarball, and the
/// archive's file list.
pub struct PackageMetadata {
    pub name: String,
    pub version: String,
    pub content_address: ContentAddress,
    pub dependencies: Option<Vec<(String, String)>>,
    pub files: Vec<String>,
}

/// Character-level contents of a `PackageMetadata`.
pub ghost struct MetaModel {
    pub name: Seq<char>,
    pub version: Seq<char>,
    pub content_address: AddrModel,
    pub dependencies: Option<Seq<(Seq<char>, Seq<char>)>>,
    pub files: Seq<Seq<char>>,
}

impl View for PackageMetadata {
    type V = MetaModel;

    open spec fn view(&self) -> MetaModel {
        MetaModel {
            name: self.name@,
            version: self.version@,
            content_address: self.content_address@,
            dependencies: self.dependencies.deep_view(),
            files: self.files.deep_view(),
        }
    }
}

impl PackageMetadata {
    /// A field-for-field copy.
    pub fn duplicate(&self) -> (r: Self)
        ensures
            r@ == self@,
    {
        PackageMetadata {
            name: self.name.clone(),
            version: self.version.clone(),
            content_address: self.content_address.duplicate(),
            dependencies: crate::text::clone_dep_map(&self.dependencies),
            files: crate::text::clone_string_vec(&self.files),
        }
    }
}

/// One disk write the caller owes the store: the object's path relative to
/// the store root, and the bytes to put there.
pub struct StoreWrite {
    pub rel_path: String,
    pub bytes: Vec<u8>,
}

/// Counters reported by `get_store_stats`.
pub struct StoreStats {
    pub total_packages: u64,
    pub unique_content_count: u64,
    pub total_content_size: u64,
    pub duplicate_packages: u64,
    pub space_saved: u64,
}

/// The in-memory face of the content-addressed store: the object index
/// (hash to address), the package index (`name@version` to metadata), the
/// cached resolution trees keyed by their digest, and a ghost record of the
/// raw bytes stored through this value.
pub struct ContentStore {
    pub index: Vec<(String, ContentAddress)>,
    pub package_index: Vec<(String, PackageMetadata)>,
    pub tree_index: Vec<(String, DependencyTree)>,
    pub objects: Ghost<Map<Seq<char>, Seq<u8>>>,
}

/// Some cached tree carries this digest.
pub open spec fn has_tree(ts: Seq<(String, DependencyTree)>, h: Seq<char>) -> bool {
    exists|i: int| 0 <= i < ts.len() && (#[trigger] ts[i].0@) == h
}

/// Some object entry carries this hash.
pub open spec fn has_hash(ix: Seq<(String, ContentAddress)>, h: Seq<char>) -> bool {
    exists|i: int| 0 <= i < ix.len() && (#[trigger] ix[i].0@) == h
}

/// The index of the object entry with this hash.
pub open spec fn hash_ix(ix: Seq<(String, ContentAddress)>, h: Seq<char>) -> int {
    choose|i: int| 0 <= i < ix.len() && (#[trigger] ix[i].0@) == h
}

/// The address stored under this hash.
pub open spec fn addr_of(ix: Seq<(String, ContentAddress)>, h: Seq<char>) -> ContentAddress {
    ix[hash_ix(ix, h)].1
}

/// Some package entry carries this `name@version` key.
pub open spec fn has_meta(pk: Seq<(String, PackageMetadata)>, k: Seq<char>) -> bool {
    exists|i: int| 0 <= i < pk.len() && (#[trigger] pk[i].0@) == k
}

/// The index of the package entry with this key.
pub open spec fn meta_ix(pk: Seq<(String, PackageMetadata)>, k: Seq<char>) -> int {
    choose|i: int| 0 <= i < pk.len() && (#[trigger] pk[i].0@) == k
}

/// The metadata stored under this key.
pub open spec fn meta_of(pk: Seq<(String, PackageMetadata)>, k: Seq<char>) -> PackageMetadata {
    pk[meta_ix(pk, k)].1
}

/// A hash is referenced when some package record points at it.
pub open spec fn referenced(pk: Seq<(String, PackageMetadata)>, h: Seq<char>) -> bool {
    exists|i: int| 0 <= i < pk.len() && (#[trigger] pk[i].1.content_address.hash@) == h
}

/// Object keys are pairwise distinct.
pub open spec fn wf_index(ix: Seq<(String, ContentAddress)>) -> bool {
    forall|i: int, j: int|
        0 <= i < j < ix.len() ==> (#[trigger] ix[i].0@) != (#[trigger] ix[j].0@)
}

/// Package keys are pairwise distinct.
pub open spec fn wf_packages(pk: Seq<(String, PackageMetadata)>) -> bool {
    forall|i: int, j: int|
        0 <= i < j < pk.len() ==> (#[trigger] pk[i].0@) != (#[trigger] pk[j].0@)
}

/// Store invariant: both indices are maps; each object entry records its own
/// key as its hash; each package record points at an existing object entry
/// and agrees with it; bytes recorded as stored sit under their own digest.
pub open spec fn wf_store(s: ContentStore) -> bool {
    &&& wf_index(s.index@)
    &&& wf_packages(s.package_index@)
    &&& forall|i: int|
        0 <= i < s.index@.len() ==> (#[trigger] s.index@[i].1.hash@) == s.index@[i].0@
            && s.index@[i].0@.len() >= 2
    &&& forall|i: int|
        0 <= i < s.package_index@.len() ==> has_hash(
            s.index@,
            (#[trigger] s.package_index@[i].1.content_address.hash@),
        ) && addr_of(s.index@, s.package_index@[i].1.content_address.hash@)@
            == s.package_index@[i].1.content_address@
    &&& forall|h: Seq<char>|
        #[trigger] s.objects@.dom().contains(h) ==> has_hash(s.index@, h) && sha1_hex_of(
            s.objects@[h],
        ) == h
    &&& forall|i: int, j: int|
        0 <= i < j < s.tree_index@.len() ==> (#[trigger] s.tree_index@[i].0@) != (
        #[trigger] s.tree_index@[j].0@)
}

/// Under distinct keys, an object hit is the unique witness.
pub proof fn lemma_hash_ix_unique(ix: Seq<(String, ContentAddress)>, h: Seq<char>, i: int)
    requires
        wf_index(ix),
        0 <= i < ix.len(),
        ix[i].0@ == h,
    ensures
        has_hash(ix, h),
        hash_ix(ix, h) == i,
{
    assert(has_hash(ix, h));
    let k = hash_ix(ix, h);
    if k != i {
        if k < i {
            assert(ix[k].0@ != ix[i].0@);
        } else {
            assert(ix[i].0@ != ix[k].0@);
        }
    }
}

/// Under distinct keys, a package hit is the unique witness.
pub proof fn lemma_meta_ix_unique(pk: Seq<(String, PackageMetadata)>, k: Seq<char>, i: int)
    requires
        wf_packages(pk),
        0 <= i < pk.len(),
        pk[i].0@ == k,
    ensures
        has_meta(pk, k),
        meta_ix(pk, k) == i,
{
    assert(has_meta(pk, k));
    let m = meta_ix(pk, k);
    if m != i {
        if m < i {
            assert(pk[m].0@ != pk[i].0@);
        } else {
            assert(pk[i].0@ != pk[m].0@);
        }
    }
}

/// Where an object lives under the store root: sharded by the first two hex
/// digits of its hash.
pub open spec fn spec_content_rel_path(hash: Seq<char>) -> Seq<char> {
    "content/"@ + hash.take(2) + "/"@ + hash.skip(2) + ".tar.gz"@
}

/// Builds the sharded store-relative path of an object.
pub fn content_rel_path(hash: &str) -> (r: String)
    requires
        hash@.len() >= 2,
    ensures
        r@ == spec_content_rel_path(hash@),
{
    let n = hash.unicode_len();
    let mut s = String::from_str("content/");
    s.append(hash.substring_char(0, 2));
    s.append("/");
    s.append(hash.substring_char(2, n));
    s.append(".tar.gz");
    proof {
        assert(hash@.subrange(0, 2) =~= hash@.take(2));
        assert(hash@.subrange(2, n as int) =~= hash@.skip(2));
    }
    s
}

/// The path list of an archive's entries.
pub open spec fn spec_entry_paths(entries: Seq<(Seq<char>, Seq<u8>)>) -> Seq<Seq<char>> {
    entries.map_values(|e: (Seq<char>, Seq<u8>)| e.0)
}

/// The dependency map the archive embeds: the last entry whose path ends in
/// `package.json` and whose bytes parse, if any.
pub open spec fn spec_entry_deps(entries: Seq<(Seq<char>, Seq<u8>)>) -> Option<
    Seq<(Seq<char>, Seq<char>)>,
>
    decreases entries.len(),
{
    if entries.len() == 0 {
        Option::None
    } else if spec_ends_with(entries.last().0, "package.json"@) && manifest_deps_of(
        entries.last().1,
    ) is Some {
        manifest_deps_of(entries.last().1)
    } else {
        spec_entry_deps(entries.drop_last())
    }
}

/// Builds the metadata record for one archive from its entry list: the file
/// list is the paths in archive order, and the dependency map is read from
/// the embedded manifest.
pub fn analyze_entries(
    package_name: &str,
    package_version: &str,
    entries: &Vec<(String, Vec<u8>)>,
    content_address: ContentAddress,
) -> (r: PackageMetadata)
    ensures
        r.name@ == package_name@,
        r.version@ == package_version@,
        r.content_address == content_address,
        r.files.deep_view() == spec_entry_paths(entries.deep_view()),
        r.dependencies.deep_view() == spec_entry_deps(entries.deep_view()),
{
    let mut files: Vec<String> = Vec::new();
    let mut dependencies: Option<Vec<(String, String)>> = None;
    let mut i: usize = 0;
    proof {
        assert(entries.deep_view().take(0) =~= Seq::<(Seq<char>, Seq<u8>)>::empty());
        assert(files.deep_view() =~= spec_entry_paths(entries.deep_view().take(0)));
    }
    while i < entries.len()
        invariant
            i <= entries.len(),
            files.deep_view() == spec_entry_paths(entries.deep_view().take(i as int)),
            dependencies.deep_view() == spec_entry_deps(entries.deep_view().take(i as int)),
        decreases entries.len() - i,
    {
        let ghost pre = entries.deep_view().take(i as int);
        let ghost prev_files = files.deep_view();
        let ghost cur = entries.deep_view()[i as int];
        proof {
            assert(cur.0 =~= entries@[i as int].0@);
            assert(cur.1 =~= entries@[i as int].1@);
        }
        files.push(entries[i].0.clone());
        if str_ends_with(entries[i].0.as_str(), "package.json") {
            let parsed = parse_manifest_deps(entries[i].1.as_slice());
            assert(parsed.deep_view() == manifest_deps_of(cur.1));
            if parsed.is_some() {
                dependencies = parsed;
            }
        }
        proof {
            assert(entries.deep_view().take(i + 1) =~= pre.push(cur));
            assert(pre.push(cur).drop_last() =~= pre);
            assert(files.deep_view() =~= prev_files.push(cur.0));
            assert(spec_entry_paths(pre.push(cur)) =~= spec_entry_paths(pre).push(cur.0));
        }
        i = i + 1;
    }
    proof {
        assert(entries.deep_view().take(entries.len() as int) =~= entries.deep_view());
    }
    PackageMetadata {
        name: package_name.to_owned(),
        version: package_version.to_owned(),
        content_address,
        dependencies,
        files,
    }
}

impl ContentStore {
    /// An empty store.
    pub fn new() -> (r: Self)
        ensures
            wf_store(r),
            r.index@.len() == 0,
            r.package_index@.len() == 0,
            r.tree_index@.len() == 0,
            r.objects@ == Map::<Seq<char>, Seq<u8>>::empty(),
    {
        ContentStore {
            index: Vec::new(),
            package_index: Vec::new(),
            tree_index: Vec::new(),
            objects: Ghost(Map::empty()),
        }
    }

    /// Index of the object entry with this hash.
    fn find_hash(&self, h: &str) -> (r: Option<usize>)
        ensures
            match r {
                Some(i) => i < self.index@.len() && self.index@[i as int].0@ == h@,
                None => !has_hash(self.index@, h@),
            },
    {
        let mut i: usize = 0;
        while i < self.index.len()
            invariant
                i <= self.index@.len(),
                forall|j: int| 0 <= j < i ==> (#[trigger] self.index@[j].0@) != h@,
            decreases self.index@.len() - i,
        {
            if string_eq(self.index[i].0.as_str(), h) {
                return Some(i);
            }
            i = i + 1;
        }
        None
    }

    /// Index of the package entry with this key.
    fn find_meta(&self, k: &str) -> (r: Option<usize>)
        ensures
            match r {
                Some(i) => i < self.package_index@.len() && self.package_index@[i as int].0@ == k@,
                None => !has_meta(self.package_index@, k@),
            },
    {
        let mut i: usize = 0;
        while i < self.package_index.len()
            invariant
                i <= self.package_index@.len(),
                forall|j: int| 0 <= j < i ==> (#[trigger] self.package_index@[j].0@) != k@,
            decreases self.package_index@.len() - i,
        {
            if string_eq(self.package_index[i].0.as_str(), k) {
                return Some(i);
            }
            i = i + 1;
        }
        None
    }

    /// The metadata recorded for `name@version`, if any.
    pub fn get_package_info(&self, package_name: &str, package_version: &str) -> (r: Option<
        &PackageMetadata,
    >)
        requires
            wf_store(*self),
        ensures
            match r {
                Some(m) => has_meta(
                    self.package_index@,
                    key_of(package_name@, package_version@),
                ) && *m == meta_of(self.package_index@, key_of(package_name@, package_version@)),
                None => !has_meta(self.package_index@, key_of(package_name@, package_version@)),
            },
    {
        let key = make_key(package_name, package_version);
        match self.find_meta(key.as_str()) {
            None => None,
            Some(i) => {
                proof {
                    lemma_meta_ix_unique(
                        self.package_index@,
                        key_of(package_name@, package_version@),
                        i as int,
                    );
                }
                Some(&self.package_index[i].1)
            },
        }
    }

    /// Decides whether `name@version` can be materialized from the store; on
    /// a hit, gives the store-relative path of the object the caller must
    /// unpack. The pointed-at object entry always exists.
    pub fn link_package(&self, package_name: &str, package_version: &str) -> (r: Option<String>)
        requires
            wf_store(*self),
        ensures
            match r {
                Some(p) => has_meta(self.package_index@, key_of(package_name@, package_version@))
                    && p@ == spec_content_rel_path(
                    meta_of(
                        self.package_index@,
                        key_of(package_name@, package_version@),
                    ).content_address.hash@,
                ),
                None => !has_meta(self.package_index@, key_of(package_name@, package_version@)),
            },
    {
        let key = make_key(package_name, package_version);
        match self.find_meta(key.as_str()) {
            None => None,
            Some(i) => {
                proof {
                    lemma_meta_ix_unique(
                        self.package_index@,
                        key_of(package_name@, package_version@),
                        i as int,
                    );
                }
                let h = &self.package_index[i].1.content_address.hash;
                proof {
                    assert(has_hash(self.index@, h@));
                    let hi = hash_ix(self.index@, h@);
                    assert(self.index@[hi].0@ == h@);
                    assert(self.index@[hi].0@.len() >= 2);
                }
                Some(content_rel_path(h.as_str()))
            },
        }
    }

    /// Records a tarball under `name@version`. The object index is keyed by
    /// the SHA-1 of the raw bytes: a hash already present is never written
    /// again, so one object serves every package with identical bytes. A new
    /// object comes back as a `StoreWrite` (gzip-compressed, at the sharded
    /// path) that the caller must persist. Fails exactly when a record must
    /// be (re)built but the bytes do not decode as a gzip-compressed tar
    /// archive, and then changes nothing.
    #[verifier::rlimit(50)]
    pub fn store_package(
        &mut self,
        package_name: &str,
        package_version: &str,
        tarball_data: &[u8],
        integrity_hash: &str,
    ) -> (r: Result<(ContentAddress, Option<StoreWrite>), PkgError>)
        requires
            wf_store(*old(self)),
        ensures
            ({
                let h = sha1_hex_of(tarball_data@);
                let key = key_of(package_name@, package_version@);
                match r {
                    Result::Err(e) => e is Extraction && *final(self) == *old(self) && !(has_hash(
                        old(self).index@,
                        h,
                    ) && has_meta(old(self).package_index@, key)) && tar_entries_of(
                        tarball_data@,
                    ) is None,
                    Result::Ok((addr, w)) => {
                        &&& wf_store(*final(self))
                        &&& has_hash(final(self).index@, h)
                        &&& addr@ == addr_of(final(self).index@, h)@
                        &&& has_meta(final(self).package_index@, key)
                        &&& forall|k: Seq<char>|
                            #[trigger] has_meta(final(self).package_index@, k) <==> (has_meta(
                                old(self).package_index@,
                                k,
                            ) || k == key)
                        &&& forall|g: Seq<char>|
                            #[trigger] has_hash(final(self).index@, g) <==> (has_hash(
                                old(self).index@,
                                g,
                            ) || g == h)
                        &&& forall|j: int|
                            0 <= j < old(self).package_index@.len() && old(
                                self,
                            ).package_index@[j].0@ != key ==> (
                            #[trigger] final(self).package_index@[j]) == old(
                                self,
                            ).package_index@[j]
                        &&& (if has_hash(old(self).index@, h) {
                            &&& final(self).index@ == old(self).index@
                            &&& final(self).objects@ == old(self).objects@
                            &&& w is None
                        } else {
                            &&& final(self).index@.len() == old(self).index@.len() + 1
                            &&& final(self).index@.take(old(self).index@.len() as int) == old(
                                self,
                            ).index@
                            &&& final(self).index@.last().0@ == h
                            &&& final(self).index@.last().1@ == addr@
                            &&& final(self).objects@ == old(self).objects@.insert(
                                h,
                                tarball_data@,
                            )
                            &&& addr@.size == tarball_data@.len()
                            &&& addr@.integrity == integrity_hash@
                            &&& (w matches Some(sw) && sw.rel_path@ == spec_content_rel_path(h)
                                && sw.bytes@ == gzip_of(tarball_data@))
                        })
                        &&& (if has_meta(old(self).package_index@, key) && has_hash(
                            old(self).index@,
                            h,
                        ) {
                            final(self).package_index@ == old(self).package_index@
                        } else {
                            let m = meta_of(final(self).package_index@, key);
                            &&& m.name@ == package_name@
                            &&& m.version@ == package_version@
                            &&& m.content_address@ == addr@
                            &&& m.files.deep_view() == spec_entry_paths(
                                tar_entries_of(tarball_data@)->Some_0,
                            )
                            &&& m.dependencies.deep_view() == spec_entry_deps(
                                tar_entries_of(tarball_data@)->Some_0,
                            )
                        })
                    },
                }
            }),
    {
        let content_hash = sha1_hex(tarball_data);
        let key = make_key(package_name, package_version);
        let ghost gkey = key@;
        let hash_hit = self.find_hash(content_hash.as_str());
        let meta_hit = self.find_meta(key.as_str());

        if let (Some(hi), Some(mi)) = (hash_hit, meta_hit) {
            // Both the object and the package record exist: nothing to do.
            proof {
                lemma_hash_ix_unique(self.index@, content_hash@, hi as int);
                lemma_meta_ix_unique(self.package_index@, key@, mi as int);
                assert(has_hash(self.index@, sha1_hex_of(tarball_data@)));
                assert(has_meta(self.package_index@, key_of(package_name@, package_version@)));
            }
            let addr = self.index[hi].1.duplicate();
            return Ok((addr, None));
        }

        // The package record must be (re)built, so the archive is read here.
        let listed = tar_entry_list(tarball_data);
        let entries = match listed {
            Some(e) => {
                proof {
                    assert(tar_entries_of(tarball_data@) is Some);
                    assert(e.deep_view() == tar_entries_of(tarball_data@)->Some_0);
                }
                e
            },
            None => {
                proof {
                    assert(tar_entries_of(tarball_data@) is None);
                }
                return Err(PkgError::Extraction(package_name.to_owned()));
            },
        };

        let addr: ContentAddress = match hash_hit {
            Some(hi) => {
                proof {
                    lemma_hash_ix_unique(self.index@, content_hash@, hi as int);
                }
                self.index[hi].1.duplicate()
            },
            None => ContentAddress {
                hash: content_hash.clone(),
                size: tarball_data.len() as u64,
                integrity: integrity_hash.to_owned(),
            },
        };

        let metadata = analyze_entries(package_name, package_version, &entries, addr.duplicate());

        let ghost old_index = self.index@;
        let ghost old_pk = self.package_index@;
        let ghost old_objects = self.objects@;

        let write: Option<StoreWrite> = match hash_hit {
            Some(_) => None,
            None => {
                let compressed = gzip_bytes(tarball_data);
                let rel_path = content_rel_path(content_hash.as_str());
                self.index.push((content_hash.clone(), addr.duplicate()));
                proof {
                    self.objects@ = old_objects.insert(content_hash@, tarball_data@);
                    lemma_hash_ix_unique(self.index@, content_hash@, old_index.len() as int);
                    assert(self.index@.take(old_index.len() as int) =~= old_index);
                    assert forall|g: Seq<char>| #[trigger]
                        has_hash(self.index@, g) <==> (has_hash(old_index, g) || g
                            == content_hash@) by {
                        if has_hash(self.index@, g) {
                            let i = choose|i: int|
                                0 <= i < self.index@.len() && (#[trigger] self.index@[i].0@) == g;
                            if i < old_index.len() {
                                assert(old_index[i].0@ == g);
                            }
                        }
                        if has_hash(old_index, g) {
                            let i = choose|i: int|
                                0 <= i < old_index.len() && (#[trigger] old_index[i].0@) == g;
                            assert(self.index@[i].0@ == g);
                        }
                    }
                    assert(wf_index(self.index@));
                }
                Some(StoreWrite { rel_path, bytes: compressed })
            },
        };

        proof {
            // Old object entries keep their addresses.
            assert forall|g: Seq<char>| has_hash(old_index, g) implies has_hash(self.index@, g)
            && addr_of(self.index@, g) == addr_of(old_index, g) by {
                let i = hash_ix(old_index, g);
                assert(old_index[i].0@ == g);
                assert(self.index@[i] == old_index[i]);
                lemma_hash_ix_unique(self.index@, g, i);
            }
            assert(has_hash(self.index@, content_hash@));
            assert(addr_of(self.index@, content_hash@)@ == addr@);
        }

        let ghost mid_index = self.index@;

        match meta_hit {
            Some(mi) => {
                proof {
                    lemma_meta_ix_unique(self.package_index@, key@, mi as int);
                }
                let _old_entry = self.package_index.remove(mi);
                self.package_index.insert(mi, (key, metadata));
                proof {
                    assert(self.package_index@ =~= old_pk.update(
                        mi as int,
                        self.package_index@[mi as int],
                    ));
                    assert(wf_packages(self.package_index@));
                    lemma_meta_ix_unique(self.package_index@, gkey, mi as int);
                }
            },
            None => {
                self.package_index.push((key, metadata));
                proof {
                    assert forall|i: int, j: int| 0 <= i < j < self.package_index@.len() implies (
                    #[trigger] self.package_index@[i].0@) != (
                    #[trigger] self.package_index@[j].0@) by {
                        if j == old_pk.len() {
                            assert(old_pk[i].0@ != key_of(package_name@, package_version@));
                        }
                    }
                    lemma_meta_ix_unique(self.package_index@, gkey, old_pk.len() as int);
                }
            },
        }

        proof {
            let key = key_of(package_name@, package_version@);
            assert forall|k: Seq<char>| #[trigger]
                has_meta(self.package_index@, k) <==> (has_meta(old_pk, k) || k == key) by {
                if has_meta(self.package_index@, k) {
                    let i = choose|i: int|
                        0 <= i < self.package_index@.len() && (
                        #[trigger] self.package_index@[i].0@) == k;
                    if i < old_pk.len() && self.package_index@[i].0@ == old_pk[i].0@ {
                        assert(has_meta(old_pk, k));
                    } else {
                        assert(k == key);
                    }
                }
                if has_meta(old_pk, k) {
                    let i = choose|i: int| 0 <= i < old_pk.len() && (#[trigger] old_pk[i].0@) == k;
                    assert(self.package_index@[i].0@ == k);
                }
            }
            // Package records still point at live, agreeing object entries.
            assert forall|i: int| 0 <= i < self.package_index@.len() implies has_hash(
                self.index@,
                (#[trigger] self.package_index@[i].1.content_address.hash@),
            ) && addr_of(self.index@, self.package_index@[i].1.content_address.hash@)@
                == self.package_index@[i].1.content_address@ by {
                if i < old_pk.len() && self.package_index@[i] == old_pk[i] {
                    assert(has_hash(old_index, old_pk[i].1.content_address.hash@));
                } else {
                    assert(self.package_index@[i].1.content_address@ == addr@);
                }
            }
        }

        proof {
            assert(tar_entries_of(tarball_data@) is Some);
            assert(entries.deep_view() == tar_entries_of(tarball_data@)->Some_0);
            assert(spec_entry_paths(entries.deep_view()) == spec_entry_paths(
                tar_entries_of(tarball_data@)->Some_0,
            ));
            assert(spec_entry_deps(entries.deep_view()) == spec_entry_deps(
                tar_entries_of(tarball_data@)->Some_0,
            ));
        }
        Ok((addr, write))
    }
}

/// Number of package records pointing at this hash.
pub open spec fn refs_count(pk: Seq<(String, PackageMetadata)>, h: Seq<char>) -> int
    decreases pk.len(),
{
    if pk.len() == 0 {
        0
    } else {
        refs_count(pk.drop_last(), h) + (if pk.last().1.content_address.hash@ == h {
            1int
        } else {
            0int
        })
    }
}

/// Reference counts are between zero and the record count.
pub proof fn lemma_refs_count_bounds(pk: Seq<(String, PackageMetadata)>, h: Seq<char>)
    ensures
        0 <= refs_count(pk, h) <= pk.len(),
    decreases pk.len(),
{
    if pk.len() > 0 {
        lemma_refs_count_bounds(pk.drop_last(), h);
    }
}

/// Total size of the objects in an index.
pub open spec fn sum_sizes(ix: Seq<(String, ContentAddress)>) -> int
    decreases ix.len(),
{
    if ix.len() == 0 {
        0
    } else {
        sum_sizes(ix.drop_last()) + ix.last().1.size
    }
}

/// Object sizes sum to a non-negative number.
pub proof fn lemma_sum_sizes_nonneg(ix: Seq<(String, ContentAddress)>)
    ensures
        sum_sizes(ix) >= 0,
    decreases ix.len(),
{
    if ix.len() > 0 {
        lemma_sum_sizes_nonneg(ix.drop_last());
    }
}

/// A prefix of the index weighs no more than the whole.
pub proof fn lemma_sum_sizes_prefix(ix: Seq<(String, ContentAddress)>, i: int)
    requires
        0 <= i <= ix.len(),
    ensures
        sum_sizes(ix.take(i)) <= sum_sizes(ix),
    decreases ix.len(),
{
    if i == ix.len() {
        assert(ix.take(i) =~= ix);
    } else {
        assert(ix.drop_last().take(i) =~= ix.take(i));
        lemma_sum_sizes_prefix(ix.drop_last(), i);
    }
}

/// What the store's contents would weigh without deduplication: each object
/// counted once per package record pointing at it.
pub open spec fn sum_weighted(
    ix: Seq<(String, ContentAddress)>,
    pk: Seq<(String, PackageMetadata)>,
) -> int
    decreases ix.len(),
{
    if ix.len() == 0 {
        0
    } else {
        sum_weighted(ix.drop_last(), pk) + ix.last().1.size * refs_count(pk, ix.last().0@)
    }
}

/// The weighted total is non-negative.
pub proof fn lemma_sum_weighted_nonneg(
    ix: Seq<(String, ContentAddress)>,
    pk: Seq<(String, PackageMetadata)>,
)
    ensures
        sum_weighted(ix, pk) >= 0,
    decreases ix.len(),
{
    if ix.len() > 0 {
        lemma_sum_weighted_nonneg(ix.drop_last(), pk);
        lemma_refs_count_bounds(pk, ix.last().0@);
        assert(ix.last().1.size * refs_count(pk, ix.last().0@) >= 0) by (nonlinear_arith)
            requires
                refs_count(pk, ix.last().0@) >= 0,
        ;
    }
}

/// A prefix of the weighted total is no more than the whole.
pub proof fn lemma_sum_weighted_prefix(
    ix: Seq<(String, ContentAddress)>,
    pk: Seq<(String, PackageMetadata)>,
    i: int,
)
    requires
        0 <= i <= ix.len(),
    ensures
        sum_weighted(ix.take(i), pk) <= sum_weighted(ix, pk),
    decreases ix.len(),
{
    if i == ix.len() {
        assert(ix.take(i) =~= ix);
    } else {
        assert(ix.drop_last().take(i) =~= ix.take(i));
        lemma_sum_weighted_prefix(ix.drop_last(), pk, i);
        lemma_refs_count_bounds(pk, ix.last().0@);
        assert(ix.last().1.size * refs_count(pk, ix.last().0@) >= 0) by (nonlinear_arith)
            requires
                refs_count(pk, ix.last().0@) >= 0,
        ;
    }
}

/// Bytes that deduplication saves: for each object shared by several package
/// records, its size once per extra record.
pub open spec fn sum_dup_sizes(
    ix: Seq<(String, ContentAddress)>,
    pk: Seq<(String, PackageMetadata)>,
) -> int
    decreases ix.len(),
{
    if ix.len() == 0 {
        0
    } else {
        sum_dup_sizes(ix.drop_last(), pk) + (if refs_count(pk, ix.last().0@) > 1 {
            ix.last().1.size * (refs_count(pk, ix.last().0@) - 1)
        } else {
            0int
        })
    }
}

/// How many package records are duplicates of an already-counted object.
pub open spec fn sum_dup_counts(
    ix: Seq<(String, ContentAddress)>,
    pk: Seq<(String, PackageMetadata)>,
) -> int
    decreases ix.len(),
{
    if ix.len() == 0 {
        0
    } else {
        sum_dup_counts(ix.drop_last(), pk) + (if refs_count(pk, ix.last().0@) > 1 {
            refs_count(pk, ix.last().0@) - 1
        } else {
            0int
        })
    }
}

/// Duplicate-byte savings are non-negative.
pub proof fn lemma_sum_dup_sizes_nonneg(
    ix: Seq<(String, ContentAddress)>,
    pk: Seq<(String, PackageMetadata)>,
)
    ensures
        sum_dup_sizes(ix, pk) >= 0,
    decreases ix.len(),
{
    if ix.len() > 0 {
        lemma_sum_dup_sizes_nonneg(ix.drop_last(), pk);
        if refs_count(pk, ix.last().0@) > 1 {
            assert(ix.last().1.size * (refs_count(pk, ix.last().0@) - 1) >= 0)
                by (nonlinear_arith)
                requires
                    refs_count(pk, ix.last().0@) > 1,
            ;
        }
    }
}

/// A prefix of the duplicate-byte savings is no more than the whole.
pub proof fn lemma_sum_dup_sizes_prefix(
    ix: Seq<(String, ContentAddress)>,
    pk: Seq<(String, PackageMetadata)>,
    i: int,
)
    requires
        0 <= i <= ix.len(),
    ensures
        sum_dup_sizes(ix.take(i), pk) <= sum_dup_sizes(ix, pk),
    decreases ix.len(),
{
    if i == ix.len() {
        assert(ix.take(i) =~= ix);
    } else {
        assert(ix.drop_last().take(i) =~= ix.take(i));
        lemma_sum_dup_sizes_prefix(ix.drop_last(), pk, i);
        if refs_count(pk, ix.last().0@) > 1 {
            assert(ix.last().1.size * (refs_count(pk, ix.last().0@) - 1) >= 0)
                by (nonlinear_arith)
                requires
                    refs_count(pk, ix.last().0@) > 1,
            ;
        }
    }
}

/// Duplicate counts are non-negative and a prefix counts no more.
pub proof fn lemma_sum_dup_counts_prefix(
    ix: Seq<(String, ContentAddress)>,
    pk: Seq<(String, PackageMetadata)>,
    i: int,
)
    requires
        0 <= i <= ix.len(),
    ensures
        sum_dup_counts(ix, pk) >= 0,
        sum_dup_counts(ix.take(i), pk) <= sum_dup_counts(ix, pk),
    decreases ix.len(),
{
    if ix.len() > 0 {
        lemma_sum_dup_counts_prefix(ix.drop_last(), pk, if i == ix.len() {
            ix.len() - 1
        } else {
            i
        });
    }
    if i == ix.len() {
        assert(ix.take(i) =~= ix);
    } else if ix.len() > 0 {
        assert(ix.drop_last().take(i) =~= ix.take(i));
    }
}

/// Counts the package records pointing at this hash.
fn count_refs(pk: &Vec<(String, PackageMetadata)>, h: &str) -> (r: usize)
    ensures
        r as int == refs_count(pk@, h@),
{
    let mut r: usize = 0;
    let mut i: usize = 0;
    proof {
        assert(pk@.take(0) =~= Seq::<(String, PackageMetadata)>::empty());
    }
    while i < pk.len()
        invariant
            i <= pk@.len(),
            r <= i,
            r as int == refs_count(pk@.take(i as int), h@),
        decreases pk@.len() - i,
    {
        proof {
            assert(pk@.take(i + 1).drop_last() =~= pk@.take(i as int));
            assert(pk@.take(i + 1).last() == pk@[i as int]);
        }
        if string_eq(pk[i].1.content_address.hash.as_str(), h) {
            r = r + 1;
        }
        i = i + 1;
    }
    proof {
        assert(pk@.take(pk@.len() as int) =~= pk@);
    }
    r
}

/// Whether some package record points at this hash.
fn is_referenced(pk: &Vec<(String, PackageMetadata)>, h: &str) -> (r: bool)
    ensures
        r == referenced(pk@, h@),
{
    let mut i: usize = 0;
    while i < pk.len()
        invariant
            i <= pk@.len(),
            forall|j: int| 0 <= j < i ==> (#[trigger] pk@[j].1.content_address.hash@) != h@,
        decreases pk@.len() - i,
    {
        if string_eq(pk[i].1.content_address.hash.as_str(), h) {
            assert(pk@[i as int].1.content_address.hash@ == h@);
            return true;
        }
        i = i + 1;
    }
    false
}

impl ContentStore {
    /// Store counters: package records, distinct objects, bytes held, how
    /// many records share an already-stored object, and the bytes that
    /// sharing saves against storing one object per record.
    pub fn get_store_stats(&self) -> (r: StoreStats)
        requires
            wf_store(*self),
            sum_sizes(self.index@) <= u64::MAX,
            sum_weighted(self.index@, self.package_index@) <= u64::MAX,
            sum_dup_counts(self.index@, self.package_index@) <= u64::MAX,
        ensures
            r.total_packages == self.package_index@.len(),
            r.unique_content_count == self.index@.len(),
            r.total_content_size == sum_sizes(self.index@),
            r.duplicate_packages == sum_dup_counts(self.index@, self.package_index@),
            r.space_saved == (if sum_weighted(self.index@, self.package_index@) >= sum_sizes(
                self.index@,
            ) {
                sum_weighted(self.index@, self.package_index@) - sum_sizes(self.index@)
            } else {
                0int
            }),
    {
        let ghost ix = self.index@;
        let ghost pk = self.package_index@;
        let mut total: u64 = 0;
        let mut weighted: u64 = 0;
        let mut dups: u64 = 0;
        let mut i: usize = 0;
        proof {
            assert(ix.take(0) =~= Seq::<(String, ContentAddress)>::empty());
        }
        while i < self.index.len()
            invariant
                wf_store(*self),
                ix == self.index@,
                pk == self.package_index@,
                i <= ix.len(),
                sum_sizes(ix) <= u64::MAX,
                sum_weighted(ix, pk) <= u64::MAX,
                sum_dup_counts(ix, pk) <= u64::MAX,
                total as int == sum_sizes(ix.take(i as int)),
                weighted as int == sum_weighted(ix.take(i as int), pk),
                dups as int == sum_dup_counts(ix.take(i as int), pk),
            decreases ix.len() - i,
        {
            proof {
                assert(ix.take(i + 1).drop_last() =~= ix.take(i as int));
                assert(ix.take(i + 1).last() == ix[i as int]);
                lemma_sum_sizes_prefix(ix, i + 1);
                lemma_sum_weighted_prefix(ix, pk, i + 1);
                lemma_sum_dup_counts_prefix(ix, pk, i + 1);
                lemma_sum_sizes_nonneg(ix.take(i as int));
                lemma_sum_weighted_nonneg(ix.take(i as int), pk);
                lemma_refs_count_bounds(pk, ix[i as int].0@);
            }
            let refs = count_refs(&self.package_index, self.index[i].0.as_str());
            let size = self.index[i].1.size;
            total = total + size;
            proof {
                assert((size * (refs as u64)) as int == ix[i as int].1.size * refs_count(
                    pk,
                    ix[i as int].0@,
                ));
            }
            weighted = weighted + size * (refs as u64);
            if refs > 1 {
                dups = dups + (refs as u64 - 1);
            }
            i = i + 1;
        }
        proof {
            assert(ix.take(ix.len() as int) =~= ix);
        }
        let space_saved = if weighted >= total {
            weighted - total
        } else {
            0
        };
        StoreStats {
            total_packages: self.package_index.len() as u64,
            unique_content_count: self.index.len() as u64,
            total_content_size: total,
            duplicate_packages: dups,
            space_saved,
        }
    }

    /// Bytes the content-addressed layout saves over storing one object per
    /// package record: the size of each shared object once per extra record.
    pub fn deduplicate_store(&self) -> (r: u64)
        requires
            wf_store(*self),
            sum_dup_sizes(self.index@, self.package_index@) <= u64::MAX,
        ensures
            r == sum_dup_sizes(self.index@, self.package_index@),
    {
        let ghost ix = self.index@;
        let ghost pk = self.package_index@;
        let mut saved: u64 = 0;
        let mut i: usize = 0;
        proof {
            assert(ix.take(0) =~= Seq::<(String, ContentAddress)>::empty());
        }
        while i < self.index.len()
            invariant
                wf_store(*self),
                ix == self.index@,
                pk == self.package_index@,
                i <= ix.len(),
                sum_dup_sizes(ix, pk) <= u64::MAX,
                saved as int == sum_dup_sizes(ix.take(i as int), pk),
            decreases ix.len() - i,
        {
            proof {
                assert(ix.take(i + 1).drop_last() =~= ix.take(i as int));
                assert(ix.take(i + 1).last() == ix[i as int]);
                lemma_sum_dup_sizes_prefix(ix, pk, i + 1);
                lemma_sum_dup_sizes_nonneg(ix.take(i as int), pk);
                lemma_refs_count_bounds(pk, ix[i as int].0@);
            }
            let refs = count_refs(&self.package_index, self.index[i].0.as_str());
            if refs > 1 {
                let size = self.index[i].1.size;
                proof {
                    assert((size * (refs as u64 - 1)) as int == ix[i as int].1.size * (
                    refs_count(pk, ix[i as int].0@) - 1));
                }
                saved = saved + size * (refs as u64 - 1);
            }
            i = i + 1;
        }
        proof {
            assert(ix.take(ix.len() as int) =~= ix);
        }
        saved
    }
}

/// The store-relative paths of the objects a GC pass removes: those whose
/// hash no surviving package record references, in index order.
pub open spec fn removed_paths_spec(
    ix: Seq<(String, ContentAddress)>,
    pk: Seq<(String, PackageMetadata)>,
) -> Seq<Seq<char>>
    decreases ix.len(),
{
    if ix.len() == 0 {
        Seq::empty()
    } else {
        removed_paths_spec(ix.drop_last(), pk) + (if referenced(pk, ix.last().0@) {
            Seq::empty()
        } else {
            seq![spec_content_rel_path(ix.last().0@)]
        })
    }
}

impl ContentStore {
    /// Garbage collection. Package records whose `name@version` key is not in
    /// `active_packages` are dropped; then every object no surviving record
    /// references is dropped. Active records and the objects they point at
    /// survive untouched. Returns the store-relative paths of the removed
    /// objects, which the caller must delete, and the bytes they held.
    pub fn cleanup_unused(&mut self, active_packages: &Vec<String>) -> (r: (Vec<String>, u64))
        requires
            wf_store(*old(self)),
            sum_sizes(old(self).index@) <= u64::MAX,
        ensures
            wf_store(*final(self)),
            forall|k: Seq<char>|
                #[trigger] has_meta(final(self).package_index@, k) <==> (has_meta(
                    old(self).package_index@,
                    k,
                ) && active_packages.deep_view().contains(k)),
            forall|k: Seq<char>|
                #[trigger] has_meta(final(self).package_index@, k) ==> meta_of(
                    final(self).package_index@,
                    k,
                )@ == meta_of(old(self).package_index@, k)@,
            forall|g: Seq<char>|
                #[trigger] has_hash(final(self).index@, g) <==> (has_hash(old(self).index@, g)
                    && referenced(final(self).package_index@, g)),
            forall|g: Seq<char>|
                #[trigger] has_hash(final(self).index@, g) ==> addr_of(final(self).index@, g)@
                    == addr_of(old(self).index@, g)@,
            forall|g: Seq<char>|
                #[trigger] final(self).objects@.dom().contains(g) <==> (old(
                    self,
                ).objects@.dom().contains(g) && has_hash(final(self).index@, g)),
            forall|g: Seq<char>|
                #[trigger] final(self).objects@.dom().contains(g) ==> final(self).objects@[g]
                    == old(self).objects@[g],
            r.0.deep_view() == removed_paths_spec(old(self).index@, final(self).package_index@),
            r.1 as int == sum_sizes(old(self).index@) - sum_sizes(final(self).index@),
    {
        let ghost old_pk = self.package_index@;
        let ghost old_ix = self.index@;
        let ghost old_objects = self.objects@;

        // First pass: keep exactly the active package records.
        let mut new_pk: Vec<(String, PackageMetadata)> = Vec::new();
        let ghost mut src: Seq<int> = Seq::empty();
        let mut i: usize = 0;
        while i < self.package_index.len()
            invariant
                self.package_index@ == old_pk,
                wf_packages(old_pk),
                i <= old_pk.len(),
                src.len() == new_pk@.len(),
                forall|t: int| 0 <= t < src.len() ==> 0 <= #[trigger] src[t] < i,
                forall|a: int, b: int| 0 <= a < b < src.len() ==> src[a] < src[b],
                forall|t: int|
                    0 <= t < new_pk@.len() ==> (#[trigger] new_pk@[t].0@) == old_pk[src[t]].0@
                        && new_pk@[t].1@ == old_pk[src[t]].1@,
                forall|t: int|
                    0 <= t < new_pk@.len() ==> active_packages.deep_view().contains(
                        #[trigger] new_pk@[t].0@,
                    ),
                forall|oi: int|
                    0 <= oi < i && active_packages.deep_view().contains(#[trigger] old_pk[oi].0@)
                        ==> has_meta(new_pk@, old_pk[oi].0@),
            decreases old_pk.len() - i,
        {
            if vec_contains_str(active_packages, self.package_index[i].0.as_str()) {
                let ghost prev = new_pk@;
                new_pk.push(
                    (self.package_index[i].0.clone(), self.package_index[i].1.duplicate()),
                );
                proof {
                    src = src.push(i as int);
                    assert forall|oi: int|
                        0 <= oi < i + 1 && active_packages.deep_view().contains(
                            #[trigger] old_pk[oi].0@,
                        ) implies has_meta(new_pk@, old_pk[oi].0@) by {
                        if oi < i {
                            let t = choose|t: int|
                                0 <= t < prev.len() && (#[trigger] prev[t].0@) == old_pk[oi].0@;
                            assert(new_pk@[t].0@ == old_pk[oi].0@);
                        } else {
                            assert(new_pk@[prev.len() as int].0@ == old_pk[oi].0@);
                        }
                    }
                }
            }
            i = i + 1;
        }

        proof {
            assert forall|a: int, b: int| 0 <= a < b < new_pk@.len() implies (
            #[trigger] new_pk@[a].0@) != (#[trigger] new_pk@[b].0@) by {
                assert(old_pk[src[a]].0@ != old_pk[src[b]].0@);
            }
        }

        // Second pass: keep exactly the objects the surviving records use.
        let mut new_ix: Vec<(String, ContentAddress)> = Vec::new();
        let ghost mut isrc: Seq<int> = Seq::empty();
        let mut removed_paths: Vec<String> = Vec::new();
        let mut removed_bytes: u64 = 0;
        let mut j: usize = 0;
        proof {
            assert(old_ix.take(0) =~= Seq::<(String, ContentAddress)>::empty());
            assert(removed_paths.deep_view() =~= removed_paths_spec(old_ix.take(0), new_pk@));
        }
        while j < self.index.len()
            invariant
                self.index@ == old_ix,
                wf_index(old_ix),
                forall|t: int|
                    0 <= t < old_ix.len() ==> (#[trigger] old_ix[t].1.hash@) == old_ix[t].0@
                        && old_ix[t].0@.len() >= 2,
                sum_sizes(old_ix) <= u64::MAX,
                j <= old_ix.len(),
                isrc.len() == new_ix@.len(),
                forall|t: int| 0 <= t < isrc.len() ==> 0 <= #[trigger] isrc[t] < j,
                forall|a: int, b: int| 0 <= a < b < isrc.len() ==> isrc[a] < isrc[b],
                forall|t: int|
                    0 <= t < new_ix@.len() ==> (#[trigger] new_ix@[t].0@) == old_ix[isrc[t]].0@
                        && new_ix@[t].1@ == old_ix[isrc[t]].1@,
                forall|t: int|
                    0 <= t < new_ix@.len() ==> referenced(new_pk@, #[trigger] new_ix@[t].0@),
                forall|oj: int|
                    0 <= oj < j && referenced(new_pk@, #[trigger] old_ix[oj].0@) ==> has_hash(
                        new_ix@,
                        old_ix[oj].0@,
                    ),
                removed_paths.deep_view() == removed_paths_spec(old_ix.take(j as int), new_pk@),
                0 <= sum_sizes(new_ix@) <= sum_sizes(old_ix.take(j as int)),
                removed_bytes as int == sum_sizes(old_ix.take(j as int)) - sum_sizes(new_ix@),
            decreases old_ix.len() - j,
        {
            proof {
                assert(old_ix.take(j + 1).drop_last() =~= old_ix.take(j as int));
                assert(old_ix.take(j + 1).last() == old_ix[j as int]);
                assert(old_ix[j as int].1.hash@ == old_ix[j as int].0@);
                lemma_sum_sizes_prefix(old_ix, j + 1);
            }
            let ghost prev_paths = removed_paths.deep_view();
            if is_referenced(&new_pk, self.index[j].0.as_str()) {
                let ghost prev = new_ix@;
                new_ix.push((self.index[j].0.clone(), self.index[j].1.duplicate()));
                proof {
                    isrc = isrc.push(j as int);
                    assert(new_ix@.drop_last() =~= prev);
                    assert forall|oj: int|
                        0 <= oj < j + 1 && referenced(new_pk@, #[trigger] old_ix[oj].0@)
                            implies has_hash(new_ix@, old_ix[oj].0@) by {
                        if oj < j {
                            let t = choose|t: int|
                                0 <= t < prev.len() && (#[trigger] prev[t].0@) == old_ix[oj].0@;
                            assert(new_ix@[t].0@ == old_ix[oj].0@);
                        } else {
                            assert(new_ix@[prev.len() as int].0@ == old_ix[oj].0@);
                        }
                    }
                    assert(removed_paths.deep_view() =~= removed_paths_spec(
                        old_ix.take(j + 1),
                        new_pk@,
                    ));
                }
            } else {
                removed_paths.push(content_rel_path(self.index[j].0.as_str()));
                removed_bytes = removed_bytes + self.index[j].1.size;
                proof {
                    assert(removed_paths.deep_view() =~= prev_paths.push(
                        spec_content_rel_path(old_ix[j as int].0@),
                    ));
                    assert(removed_paths_spec(old_ix.take(j + 1), new_pk@) =~= prev_paths.push(
                        spec_content_rel_path(old_ix[j as int].0@),
                    ));
                }
            }
            j = j + 1;
        }

        proof {
            assert(old_ix.take(old_ix.len() as int) =~= old_ix);
            assert forall|a: int, b: int| 0 <= a < b < new_ix@.len() implies (
            #[trigger] new_ix@[a].0@) != (#[trigger] new_ix@[b].0@) by {
                assert(old_ix[isrc[a]].0@ != old_ix[isrc[b]].0@);
            }
        }

        proof {
            let fpk = new_pk@;
            let fix = new_ix@;
            // Surviving records are exactly the active old records, unchanged.
            assert forall|k: Seq<char>| #[trigger]
                has_meta(fpk, k) <==> (has_meta(old_pk, k) && active_packages.deep_view().contains(
                    k,
                )) by {
                if has_meta(fpk, k) {
                    let t = choose|t: int| 0 <= t < fpk.len() && (#[trigger] fpk[t].0@) == k;
                    assert(old_pk[src[t]].0@ == k);
                    assert(has_meta(old_pk, k));
                }
                if has_meta(old_pk, k) && active_packages.deep_view().contains(k) {
                    let oi = choose|oi: int|
                        0 <= oi < old_pk.len() && (#[trigger] old_pk[oi].0@) == k;
                    assert(has_meta(fpk, old_pk[oi].0@));
                }
            }
            assert forall|k: Seq<char>| #[trigger]
                has_meta(fpk, k) implies meta_of(fpk, k)@ == meta_of(old_pk, k)@ by {
                let t = meta_ix(fpk, k);
                assert(fpk[t].0@ == k);
                lemma_meta_ix_unique(old_pk, k, src[t]);
            }
            // Surviving objects are exactly the referenced ones, unchanged.
            assert forall|g: Seq<char>| #[trigger]
                has_hash(fix, g) <==> (has_hash(old_ix, g) && referenced(fpk, g)) by {
                if has_hash(fix, g) {
                    let t = choose|t: int| 0 <= t < fix.len() && (#[trigger] fix[t].0@) == g;
                    assert(old_ix[isrc[t]].0@ == g);
                    assert(has_hash(old_ix, g));
                    assert(referenced(fpk, fix[t].0@));
                }
                if has_hash(old_ix, g) && referenced(fpk, g) {
                    let oj = choose|oj: int|
                        0 <= oj < old_ix.len() && (#[trigger] old_ix[oj].0@) == g;
                    assert(has_hash(fix, old_ix[oj].0@));
                }
            }
            assert forall|g: Seq<char>| #[trigger]
                has_hash(fix, g) implies addr_of(fix, g)@ == addr_of(old_ix, g)@ by {
                let t = hash_ix(fix, g);
                assert(fix[t].0@ == g);
                lemma_hash_ix_unique(old_ix, g, isrc[t]);
            }
            // The store invariant survives the shrink.
            assert forall|t: int| 0 <= t < fpk.len() implies has_hash(
                fix,
                (#[trigger] fpk[t].1.content_address.hash@),
            ) && addr_of(fix, fpk[t].1.content_address.hash@)@ == fpk[t].1.content_address@ by {
                let h = fpk[t].1.content_address.hash@;
                assert(fpk[t].0@ == old_pk[src[t]].0@);
                assert(old_pk[src[t]].1@ == fpk[t].1@);
                assert(has_hash(old_ix, old_pk[src[t]].1.content_address.hash@));
                assert(referenced(fpk, h));
            }
        }

        self.package_index = new_pk;
        self.index = new_ix;
        proof {
            self.objects@ = old_objects.restrict(
                Set::new(|g: Seq<char>| has_hash(self.index@, g)),
            );
            assert(wf_store(*self));
        }

        (removed_paths, removed_bytes)
    }
}

/// The shape loaded index data must have to be adopted as a store: both key
/// lists are duplicate-free, every object entry records its own key as its
/// hash, and every package record points at an agreeing object entry.
pub open spec fn wf_parts(
    ix: Seq<(String, ContentAddress)>,
    pk: Seq<(String, PackageMetadata)>,
) -> bool {
    &&& wf_index(ix)
    &&& wf_packages(pk)
    &&& forall|i: int|
        0 <= i < ix.len() ==> (#[trigger] ix[i].1.hash@) == ix[i].0@ && ix[i].0@.len() >= 2
    &&& forall|i: int|
        0 <= i < pk.len() ==> has_hash(ix, (#[trigger] pk[i].1.content_address.hash@))
            && addr_of(ix, pk[i].1.content_address.hash@)@ == pk[i].1.content_address@
}

impl ContentStore {
    /// Adopts index data read back from disk. The data is checked against the
    /// store invariant and rejected when it does not fit; bytes are not
    /// re-read, so the ghost object record starts empty.
    pub fn from_parts(
        index: Vec<(String, ContentAddress)>,
        package_index: Vec<(String, PackageMetadata)>,
    ) -> (r: Result<ContentStore, PkgError>)
        ensures
            r matches Ok(s) ==> s.index@ == index@ && s.package_index@ == package_index@
                && s.objects@ == Map::<Seq<char>, Seq<u8>>::empty() && wf_store(s),
            r is Ok <==> wf_parts(index@, package_index@),
    {
        let n = index.len();
        let mut i: usize = 0;
        while i < n
            invariant
                n == index@.len(),
                i <= n,
                forall|a: int, b: int|
                    0 <= a < b < n && a < i ==> (#[trigger] index@[a].0@) != (
                    #[trigger] index@[b].0@),
                forall|a: int|
                    0 <= a < i ==> (#[trigger] index@[a].1.hash@) == index@[a].0@
                        && index@[a].0@.len() >= 2,
            decreases n - i,
        {
            if !string_eq(index[i].1.hash.as_str(), index[i].0.as_str())
                || index[i].0.unicode_len() < 2 {
                return Err(PkgError::Io(String::from_str("store index is inconsistent")));
            }
            let mut j: usize = i + 1;
            while j < n
                invariant
                    n == index@.len(),
                    i < j <= n,
                    forall|b: int| i < b < j ==> (#[trigger] index@[b].0@) != index@[i as int].0@,
                decreases n - j,
            {
                if string_eq(index[i].0.as_str(), index[j].0.as_str()) {
                    return Err(PkgError::Io(String::from_str("store index is inconsistent")));
                }
                j = j + 1;
            }
            i = i + 1;
        }
        proof {
            assert(i == n);
            assert(wf_index(index@));
            assert forall|a: int| 0 <= a < n implies (#[trigger] index@[a].1.hash@)
                == index@[a].0@ && index@[a].0@.len() >= 2 by {
                assert(0 <= a < i);
            }
        }

        let m = package_index.len();
        let mut p: usize = 0;
        while p < m
            invariant
                n == index@.len(),
                m == package_index@.len(),
                p <= m,
                wf_index(index@),
                forall|a: int|
                    0 <= a < n ==> (#[trigger] index@[a].1.hash@) == index@[a].0@
                        && index@[a].0@.len() >= 2,
                forall|a: int, b: int|
                    0 <= a < b < m && a < p ==> (#[trigger] package_index@[a].0@) != (
                    #[trigger] package_index@[b].0@),
                forall|a: int|
                    0 <= a < p ==> has_hash(
                        index@,
                        (#[trigger] package_index@[a].1.content_address.hash@),
                    ) && addr_of(index@, package_index@[a].1.content_address.hash@)@
                        == package_index@[a].1.content_address@,
            decreases m - p,
        {
            let mut q: usize = p + 1;
            while q < m
                invariant
                    m == package_index@.len(),
                    p < q <= m,
                    forall|b: int|
                        p < b < q ==> (#[trigger] package_index@[b].0@) != package_index@[p
                            as int].0@,
                decreases m - q,
            {
                if string_eq(package_index[p].0.as_str(), package_index[q].0.as_str()) {
                    return Err(PkgError::Io(String::from_str("store index is inconsistent")));
                }
                q = q + 1;
            }
            let addr = &package_index[p].1.content_address;
            let mut k: usize = 0;
            let mut found = false;
            while k < n && !found
                invariant
                    n == index@.len(),
                    k <= n,
                    !found ==> forall|a: int|
                        0 <= a < k ==> (#[trigger] index@[a].0@) != addr.hash@,
                    found ==> has_hash(index@, addr.hash@) && k < n && index@[k as int].0@
                        == addr.hash@,
                decreases n - k + (if found {
                    0int
                } else {
                    1int
                }),
            {
                if string_eq(index[k].0.as_str(), addr.hash.as_str()) {
                    found = true;
                } else {
                    k = k + 1;
                }
            }
            if !found {
                assert(!has_hash(index@, addr.hash@));
                return Err(PkgError::Io(String::from_str("store index is inconsistent")));
            }
            proof {
                lemma_hash_ix_unique(index@, addr.hash@, k as int);
            }
            if !(index[k].1.size == addr.size && string_eq(
                index[k].1.integrity.as_str(),
                addr.integrity.as_str(),
            )) {
                assert(addr_of(index@, addr.hash@)@ != package_index@[p as int].1.content_address@);
                return Err(PkgError::Io(String::from_str("store index is inconsistent")));
            }
            assert(addr_of(index@, addr.hash@)@ == package_index@[p as int].1.content_address@);
            p = p + 1;
        }

        Ok(
            ContentStore {
                index,
                package_index,
                tree_index: Vec::new(),
                objects: Ghost(Map::empty()),
            },
        )
    }
}

/// Where a cached tree lives under the store root: sharded like objects.
pub open spec fn spec_tree_rel_path(hash: Seq<char>) -> Seq<char> {
    "trees/"@ + hash.take(2) + "/"@ + hash.skip(2) + ".json"@
}

/// Builds the sharded store-relative path of a cached tree.
pub fn tree_rel_path(hash: &str) -> (r: String)
    requires
        hash@.len() >= 2,
    ensures
        r@ == spec_tree_rel_path(hash@),
{
    let n = hash.unicode_len();
    let mut s = String::from_str("trees/");
    s.append(hash.substring_char(0, 2));
    s.append("/");
    s.append(hash.substring_char(2, n));
    s.append(".json");
    proof {
        assert(hash@.subrange(0, 2) =~= hash@.take(2));
        assert(hash@.subrange(2, n as int) =~= hash@.skip(2));
    }
    s
}

impl ContentStore {
    /// Index of the cached tree with this digest.
    fn find_tree(&self, h: &str) -> (r: Option<usize>)
        ensures
            match r {
                Some(i) => i < self.tree_index@.len() && self.tree_index@[i as int].0@ == h@,
                None => !has_tree(self.tree_index@, h@),
            },
    {
        let mut i: usize = 0;
        while i < self.tree_index.len()
            invariant
                i <= self.tree_index@.len(),
                forall|j: int| 0 <= j < i ==> (#[trigger] self.tree_index@[j].0@) != h@,
            decreases self.tree_index@.len() - i,
        {
            if string_eq(self.tree_index[i].0.as_str(), h) {
                return Some(i);
            }
            i = i + 1;
        }
        None
    }

    /// Caches a resolution tree under its digest and hands back the digest
    /// with the store-relative path the caller must persist it at. A fresh
    /// digest stores exactly the given tree; a digest already cached keeps
    /// its earlier tree, so a later lookup returns what was stored.
    pub fn store_dependency_tree(&mut self, tree: DependencyTree) -> (r: (String, String))
        requires
            wf_store(*old(self)),
            tree.tree_hash@.len() >= 2,
        ensures
            wf_store(*final(self)),
            final(self).index@ == old(self).index@,
            final(self).package_index@ == old(self).package_index@,
            final(self).objects@ == old(self).objects@,
            r.0@ == tree.tree_hash@,
            r.1@ == spec_tree_rel_path(tree.tree_hash@),
            has_tree(final(self).tree_index@, tree.tree_hash@),
            forall|h: Seq<char>|
                #[trigger] has_tree(final(self).tree_index@, h) <==> (has_tree(
                    old(self).tree_index@,
                    h,
                ) || h == tree.tree_hash@),
            has_tree(old(self).tree_index@, tree.tree_hash@) ==> final(self).tree_index@ == old(
                self,
            ).tree_index@,
            !has_tree(old(self).tree_index@, tree.tree_hash@) ==> ((final(self).tree_index@[
                tree_ix(final(self).tree_index@, tree.tree_hash@)
            ].1 == tree) && (forall|j: int|
                0 <= j < old(self).tree_index@.len() ==> (#[trigger] final(self).tree_index@[j])
                    == old(self).tree_index@[j])),
    {
        let hash = tree.tree_hash.clone();
        let rel = tree_rel_path(hash.as_str());
        let ghost pre = self.tree_index@;
        match self.find_tree(hash.as_str()) {
            Some(_) => {},
            None => {
                self.tree_index.push((hash.clone(), tree));
                proof {
                    assert(self.tree_index@[pre.len() as int].0@ == hash@);
                    assert(self.tree_index@[pre.len() as int].1
                        == self.tree_index@.last().1);
                    assert forall|h: Seq<char>| #[trigger]
                        has_tree(self.tree_index@, h) <==> (has_tree(pre, h) || h == hash@) by {
                        if has_tree(self.tree_index@, h) {
                            let x = choose|x: int|
                                0 <= x < self.tree_index@.len() && (
                                #[trigger] self.tree_index@[x].0@) == h;
                            if x < pre.len() {
                                assert(pre[x].0@ == h);
                            }
                        }
                        if has_tree(pre, h) {
                            let x = choose|x: int|
                                0 <= x < pre.len() && (#[trigger] pre[x].0@) == h;
                            assert(self.tree_index@[x].0@ == h);
                        }
                    }
                    assert forall|a: int, b: int|
                        0 <= a < b < self.tree_index@.len() implies (
                        #[trigger] self.tree_index@[a].0@) != (
                        #[trigger] self.tree_index@[b].0@) by {
                        if b == pre.len() {
                            assert(pre[a].0@ != hash@);
                        }
                    }
                    let ti = tree_ix(self.tree_index@, hash@);
                    if ti != pre.len() as int {
                        if ti < pre.len() as int {
                            assert(self.tree_index@[ti].0@ != self.tree_index@[pre.len() as int
                                ].0@);
                        } else {
                            assert(self.tree_index@[pre.len() as int].0@
                                != self.tree_index@[ti].0@);
                        }
                    }
                }
            },
        }
        (hash, rel)
    }

    /// The cached tree under this digest, if any.
    pub fn get_dependency_tree(&self, tree_hash: &str) -> (r: Option<&DependencyTree>)
        requires
            wf_store(*self),
        ensures
            match r {
                Some(t) => has_tree(self.tree_index@, tree_hash@) && *t
                    == self.tree_index@[tree_ix(self.tree_index@, tree_hash@)].1,
                None => !has_tree(self.tree_index@, tree_hash@),
            },
    {
        match self.find_tree(tree_hash) {
            None => None,
            Some(i) => {
                proof {
                    assert(has_tree(self.tree_index@, tree_hash@));
                    let x = tree_ix(self.tree_index@, tree_hash@);
                    if x != i as int {
                        if x < i as int {
                            assert(self.tree_index@[x].0@ != self.tree_index@[i as int].0@);
                        } else {
                            assert(self.tree_index@[i as int].0@ != self.tree_index@[x].0@);
                        }
                    }
                }
                Some(&self.tree_index[i].1)
            },
        }
    }

    /// Whether a tree with this digest is cached.
    pub fn has_dependency_tree(&self, tree_hash: &str) -> (r: bool)
        ensures
            r == has_tree(self.tree_index@, tree_hash@),
    {
        self.find_tree(tree_hash).is_some()
    }
}

/// The index of the cached tree with this digest.
pub open spec fn tree_ix(ts: Seq<(String, DependencyTree)>, h: Seq<char>) -> int {
    choose|i: int| 0 <= i < ts.len() && (#[trigger] ts[i].0@) == h
}

/// A byte string the store records as one of its objects.
pub open spec fn store_holds(s: ContentStore, t: Seq<u8>) -> bool {
    exists|h: Seq<char>| #[trigger] s.objects@.dom().contains(h) && s.objects@[h] == t
}

/// Content-address uniqueness: two byte strings recorded in one store whose
/// digests agree are the same bytes, because the store keys objects by their
/// digest and never overwrites an existing object.
pub proof fn lemma_content_address_unique(s: ContentStore, t1: Seq<u8>, t2: Seq<u8>)
    requires
        wf_store(s),
        store_holds(s, t1),
        store_holds(s, t2),
        sha1_hex_of(t1) == sha1_hex_of(t2),
    ensures
        t1 == t2,
{
    let h1 = choose|h: Seq<char>| #[trigger] s.objects@.dom().contains(h) && s.objects@[h] == t1;
    let h2 = choose|h: Seq<char>| #[trigger] s.objects@.dom().contains(h) && s.objects@[h] == t2;
    assert(sha1_hex_of(s.objects@[h1]) == h1);
    assert(sha1_hex_of(s.objects@[h2]) == h2);
}

} // verus!
