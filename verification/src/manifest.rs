use vstd::prelude::*;
use vstd::string::StringSliceAdditionalSpecFns;
use crate::registry::BinSpec;
use crate::text::{has_pair, pair_val, remove_pair, upsert_pair, wf_pairs};

verus! {

/// The project manifest's recognized fields. Serialization to and from the
/// JSON file lives outside the library; the logic here only edits the
/// dependency tables.
pub struct PackageJson {
    pub name: Option<String>,
    pub version: Option<String>,
    pub description: Option<String>,
    pub main: Option<String>,
    pub bin: BinSpec,
    pub dependencies: Option<Vec<(String, String)>>,
    pub dev_dependencies: Option<Vec<(String, String)>>,
    pub peer_dependencies: Option<Vec<(String, String)>>,
    pub optional_dependencies: Option<Vec<(String, String)>>,
}

/// An optional dependency table has distinct keys.
pub open spec fn wf_dep_table(d: Option<Vec<(String, String)>>) -> bool {
    match d {
        Option::None => true,
        Option::Some(m) => wf_pairs(m@),
    }
}

/// All four dependency tables are well-formed maps.
pub open spec fn wf_manifest(p: PackageJson) -> bool {
    &&& wf_dep_table(p.dependencies)
    &&& wf_dep_table(p.dev_dependencies)
    &&& wf_dep_table(p.peer_dependencies)
    &&& wf_dep_table(p.optional_dependencies)
}

/// Whether an optional dependency table binds this name.
pub open spec fn table_has(d: Option<Vec<(String, String)>>, name: Seq<char>) -> bool {
    match d {
        Option::None => false,
        Option::Some(m) => has_pair(m@, name),
    }
}

/// The spec an optional dependency table binds to this name.
pub open spec fn table_val(d: Option<Vec<(String, String)>>, name: Seq<char>) -> Seq<char> {
    match d {
        Option::None => Seq::empty(),
        Option::Some(m) => pair_val(m@, name),
    }
}

impl PackageJson {
    /// The default template a missing or malformed manifest is replaced by.
    pub fn new() -> (r: Self)
        ensures
            wf_manifest(r),
            r.name.deep_view() == Option::Some("my-project"@),
            r.version.deep_view() == Option::Some("1.0.0"@),
            r.description is None,
            r.main.deep_view() == Option::Some("index.js"@),
            r.bin is Missing,
            r.dependencies matches Some(d) && d@.len() == 0,
            r.dev_dependencies matches Some(d) && d@.len() == 0,
            r.peer_dependencies matches Some(d) && d@.len() == 0,
            r.optional_dependencies matches Some(d) && d@.len() == 0,
    {
        PackageJson {
            name: Some(String::from_str("my-project")),
            version: Some(String::from_str("1.0.0")),
            description: None,
            main: Some(String::from_str("index.js")),
            bin: BinSpec::Missing,
            dependencies: Some(Vec::new()),
            dev_dependencies: Some(Vec::new()),
            peer_dependencies: Some(Vec::new()),
            optional_dependencies: Some(Vec::new()),
        }
    }

    /// Binds `name` to `version` in the runtime dependency table, creating
    /// the table when absent and replacing any previous binding.
    pub fn add_dependency(&mut self, name: &str, version: &str)
        requires
            wf_manifest(*old(self)),
        ensures
            wf_manifest(*final(self)),
            table_has(final(self).dependencies, name@),
            table_val(final(self).dependencies, name@) == version@,
            forall|k: Seq<char>|
                #[trigger] table_has(final(self).dependencies, k) <==> (table_has(
                    old(self).dependencies,
                    k,
                ) || k == name@),
            forall|k: Seq<char>|
                #[trigger] table_has(final(self).dependencies, k) && k != name@ ==> table_val(
                    final(self).dependencies,
                    k,
                ) == table_val(old(self).dependencies, k),
            final(self).dev_dependencies == old(self).dev_dependencies,
            final(self).peer_dependencies == old(self).peer_dependencies,
            final(self).optional_dependencies == old(self).optional_dependencies,
            final(self).name == old(self).name,
            final(self).version == old(self).version,
    {
        if self.dependencies.is_none() {
            self.dependencies = Some(Vec::new());
        }
        match &mut self.dependencies {
            Some(m) => {
                let ghost pre = m@;
                upsert_pair(m, name, version);
                proof {
                    assert forall|k: Seq<char>| #[trigger]
                        table_has(self.dependencies, k) && k != name@ implies table_val(
                        self.dependencies,
                        k,
                    ) == table_val(old(self).dependencies, k) by {
                        assert(has_pair(m@, k));
                        assert(has_pair(pre, k));
                        let x = crate::text::pair_ix(pre, k);
                        assert(pre[x].0@ == k);
                        assert(m@[x] == pre[x]);
                        crate::text::lemma_pair_ix_unique(m@, k, x);
                        crate::text::lemma_pair_ix_unique(pre, k, x);
                    }
                }
            },
            None => {
                proof {
                    assert(false);
                }
            },
        }
    }

    /// Binds `name` to `version` in the development dependency table.
    pub fn add_dev_dependency(&mut self, name: &str, version: &str)
        requires
            wf_manifest(*old(self)),
        ensures
            wf_manifest(*final(self)),
            table_has(final(self).dev_dependencies, name@),
            table_val(final(self).dev_dependencies, name@) == version@,
            forall|k: Seq<char>|
                #[trigger] table_has(final(self).dev_dependencies, k) <==> (table_has(
                    old(self).dev_dependencies,
                    k,
                ) || k == name@),
            final(self).dependencies == old(self).dependencies,
            final(self).peer_dependencies == old(self).peer_dependencies,
            final(self).optional_dependencies == old(self).optional_dependencies,
            final(self).name == old(self).name,
            final(self).version == old(self).version,
    {
        if self.dev_dependencies.is_none() {
            self.dev_dependencies = Some(Vec::new());
        }
        match &mut self.dev_dependencies {
            Some(m) => {
                upsert_pair(m, name, version);
            },
            None => {
                proof {
                    assert(false);
                }
            },
        }
    }

    /// Drops `name` from the runtime dependency table, as uninstalling does.
    pub fn remove_dependency(&mut self, name: &str)
        requires
            wf_manifest(*old(self)),
        ensures
            wf_manifest(*final(self)),
            !table_has(final(self).dependencies, name@),
            forall|k: Seq<char>|
                #[trigger] table_has(final(self).dependencies, k) <==> (table_has(
                    old(self).dependencies,
                    k,
                ) && k != name@),
            final(self).dev_dependencies == old(self).dev_dependencies,
            final(self).peer_dependencies == old(self).peer_dependencies,
            final(self).optional_dependencies == old(self).optional_dependencies,
            final(self).name == old(self).name,
            final(self).version == old(self).version,
    {
        match &mut self.dependencies {
            Some(m) => {
                remove_pair(m, name);
            },
            None => {},
        }
    }
}

/// Whether an optional dependency table binds this name, decided.
pub fn table_contains(d: &Option<Vec<(String, String)>>, name: &str) -> (r: bool)
    ensures
        r == table_has(*d, name@),
{
    match d {
        None => false,
        Some(m) => {
            let mut i: usize = 0;
            while i < m.len()
                invariant
                    (*d) is Some && *m == (*d)->Some_0,
                    i <= m@.len(),
                    forall|j: int| 0 <= j < i ==> (#[trigger] m@[j].0@) != name@,
                decreases m@.len() - i,
            {
                if crate::text::string_eq(m[i].0.as_str(), name) {
                    assert(m@[i as int].0@ == name@);
                    assert(table_has(*d, name@));
                    return true;
                }
                i = i + 1;
            }
            false
        },
    }
}

/// Splits the installed package names into those the project manifest itself
/// declares, as a runtime or development dependency, and the rest: the
/// transitive dependencies the listing renders dimmed.
pub fn split_user_installed(manifest: &PackageJson, installed: &Vec<String>) -> (r: (
    Vec<String>,
    Vec<String>,
))
    ensures
        r.0.deep_view() == installed.deep_view().filter(
            |n: Seq<char>|
                table_has(manifest.dependencies, n) || table_has(manifest.dev_dependencies, n),
        ),
        r.1.deep_view() == installed.deep_view().filter(
            |n: Seq<char>|
                !(table_has(manifest.dependencies, n) || table_has(manifest.dev_dependencies, n)),
        ),
{
    let ghost inst = installed.deep_view();
    let ghost puser = |n: Seq<char>|
        table_has(manifest.dependencies, n) || table_has(manifest.dev_dependencies, n);
    let ghost pdep = |n: Seq<char>|
        !(table_has(manifest.dependencies, n) || table_has(manifest.dev_dependencies, n));
    let mut user: Vec<String> = Vec::new();
    let mut deps: Vec<String> = Vec::new();
    proof {
        reveal(Seq::filter);
        assert(inst.take(0) =~= Seq::<Seq<char>>::empty());
        assert(user.deep_view() =~= inst.take(0).filter(puser));
        assert(deps.deep_view() =~= inst.take(0).filter(pdep));
    }
    let mut i: usize = 0;
    while i < installed.len()
        invariant
            i <= inst.len(),
            inst == installed.deep_view(),
            puser == (|n: Seq<char>|
                table_has(manifest.dependencies, n) || table_has(manifest.dev_dependencies, n)),
            pdep == (|n: Seq<char>|
                !(table_has(manifest.dependencies, n) || table_has(
                    manifest.dev_dependencies,
                    n,
                ))),
            user.deep_view() == inst.take(i as int).filter(puser),
            deps.deep_view() == inst.take(i as int).filter(pdep),
        decreases inst.len() - i,
    {
        let ghost pre = inst.take(i as int);
        let ghost cur = inst[i as int];
        proof {
            reveal(Seq::filter);
            assert(inst.take(i + 1) =~= pre.push(cur));
            assert(pre.push(cur).drop_last() =~= pre);
            assert(cur == installed@[i as int]@);
        }
        let ghost upre = user.deep_view();
        let ghost dpre = deps.deep_view();
        let name = installed[i].as_str();
        if table_contains(&manifest.dependencies, name) || table_contains(
            &manifest.dev_dependencies,
            name,
        ) {
            user.push(installed[i].clone());
            proof {
                assert(user.deep_view() =~= upre.push(cur));
                assert(inst.take(i + 1).filter(puser) =~= upre.push(cur));
                assert(inst.take(i + 1).filter(pdep) =~= dpre);
            }
        } else {
            deps.push(installed[i].clone());
            proof {
                assert(deps.deep_view() =~= dpre.push(cur));
                assert(inst.take(i + 1).filter(pdep) =~= dpre.push(cur));
                assert(inst.take(i + 1).filter(puser) =~= upre);
            }
        }
        i = i + 1;
    }
    proof {
        assert(inst.take(inst.len() as int) =~= inst);
    }
    (user, deps)
}

/// One fingerprint line: `kind:name:spec`.
pub open spec fn spec_piece(kind: Seq<char>, d: (Seq<char>, Seq<char>)) -> Seq<char> {
    kind + ":"@ + d.0 + ":"@ + d.1
}

/// The lines of one table, in the given order, concatenated.
pub open spec fn spec_render(kind: Seq<char>, s: Seq<(Seq<char>, Seq<char>)>) -> Seq<char>
    decreases s.len(),
{
    if s.len() == 0 {
        Seq::empty()
    } else {
        spec_render(kind, s.drop_last()) + spec_piece(kind, s.last())
    }
}

/// The pair list of an optional table, empty when absent.
pub open spec fn table_pairs(d: Option<Vec<(String, String)>>) -> Seq<(Seq<char>, Seq<char>)> {
    match d {
        Option::None => Seq::empty(),
        Option::Some(m) => m.deep_view(),
    }
}

/// `s` is the table's contents in ascending name order.
pub open spec fn sorted_pairs_of(
    s: Seq<(Seq<char>, Seq<char>)>,
    d: Option<Vec<(String, String)>>,
) -> bool {
    &&& s.to_multiset() == table_pairs(d).to_multiset()
    &&& forall|i: int, j: int|
        0 <= i < j < s.len() ==> crate::text::lex_le((#[trigger] s[i]).0, (#[trigger] s[j]).0)
}

/// The text the fingerprint digests: the runtime, optionally the
/// development, and the peer tables, each sorted by name.
pub open spec fn spec_fingerprint_doc(
    sd: Seq<(Seq<char>, Seq<char>)>,
    sv: Seq<(Seq<char>, Seq<char>)>,
    sp: Seq<(Seq<char>, Seq<char>)>,
    include_dev: bool,
) -> Seq<char> {
    spec_render("dep"@, sd) + (if include_dev {
        spec_render("dev"@, sv)
    } else {
        Seq::<char>::empty()
    }) + spec_render("peer"@, sp)
}

/// Renders one table's lines under the given kind.
fn render_pieces(kind: &str, v: &Vec<(String, String)>) -> (r: String)
    ensures
        r@ == spec_render(kind@, v.deep_view()),
{
    let mut s = String::new();
    proof {
        assert(v.deep_view().take(0) =~= Seq::<(Seq<char>, Seq<char>)>::empty());
        assert(s@ =~= spec_render(kind@, v.deep_view().take(0)));
    }
    let mut i: usize = 0;
    while i < v.len()
        invariant
            i <= v@.len(),
            s@ == spec_render(kind@, v.deep_view().take(i as int)),
        decreases v@.len() - i,
    {
        let ghost pre = v.deep_view().take(i as int);
        let ghost cur = v.deep_view()[i as int];
        proof {
            assert(v.deep_view().take(i + 1) =~= pre.push(cur));
            assert(pre.push(cur).drop_last() =~= pre);
            assert(cur == (v@[i as int].0@, v@[i as int].1@));
        }
        s.append(kind);
        s.append(":");
        s.append(v[i].0.as_str());
        s.append(":");
        s.append(v[i].1.as_str());
        proof {
            assert(s@ =~= spec_render(kind@, v.deep_view().take(i + 1)));
        }
        i = i + 1;
    }
    proof {
        assert(v.deep_view().take(v@.len() as int) =~= v.deep_view());
    }
    s
}

impl PackageJson {
    /// A deterministic digest over the dependency tables: the SHA-1 of the
    /// `kind:name:spec` lines of the runtime, optionally the development,
    /// and the peer tables, each sorted by name. Two manifests with the same
    /// tables fingerprint alike whatever their field order.
    pub fn calculate_dependency_fingerprint(&self, include_dev: bool) -> (r: String)
        ensures
            r@.len() == 40,
            exists|
                sd: Seq<(Seq<char>, Seq<char>)>,
                sv: Seq<(Seq<char>, Seq<char>)>,
                sp: Seq<(Seq<char>, Seq<char>)>,
            |
                #![auto]
                sorted_pairs_of(sd, self.dependencies) && sorted_pairs_of(
                    sv,
                    self.dev_dependencies,
                ) && sorted_pairs_of(sp, self.peer_dependencies) && r@
                    == crate::hashing::sha1_hex_of(
                    vstd::utf8::encode_utf8(spec_fingerprint_doc(sd, sv, sp, include_dev)),
                ),
    {
        let empty_table: Vec<(String, String)> = Vec::new();
        let sd = crate::text::sort_pairs_by_name(match &self.dependencies {
            Some(m) => m,
            None => &empty_table,
        });
        let sv = crate::text::sort_pairs_by_name(match &self.dev_dependencies {
            Some(m) => m,
            None => &empty_table,
        });
        let sp = crate::text::sort_pairs_by_name(match &self.peer_dependencies {
            Some(m) => m,
            None => &empty_table,
        });
        proof {
            assert(empty_table.deep_view() =~= Seq::<(Seq<char>, Seq<char>)>::empty());
            assert(sorted_pairs_of(sd.deep_view(), self.dependencies));
            assert(sorted_pairs_of(sv.deep_view(), self.dev_dependencies));
            assert(sorted_pairs_of(sp.deep_view(), self.peer_dependencies));
        }
        let mut doc = render_pieces("dep", &sd);
        if include_dev {
            let dev = render_pieces("dev", &sv);
            doc.append(dev.as_str());
        }
        let peer = render_pieces("peer", &sp);
        doc.append(peer.as_str());
        proof {
            assert(doc@ =~= spec_fingerprint_doc(
                sd.deep_view(),
                sv.deep_view(),
                sp.deep_view(),
                include_dev,
            ));
        }
        let ds = doc.as_str();
        let r = crate::hashing::sha1_hex(ds.as_bytes());
        proof {
            assert(ds@ == doc@);
            assert(ds.spec_bytes() =~= vstd::utf8::encode_utf8(doc@));
        }
        r
    }
}

} // verus!
