use vstd::prelude::*;
use crate::errors::PkgError;
use crate::registry::{has_version, NpmRegistryResponse, PackageInfo, spec_select, version_ix,
    wf_response};
use crate::text::{key_of, make_key, string_eq, vec_contains_str};

verus! {

/// One resolved package in flat form: the spec it was requested under, the
/// concrete description the registry bound to it, and the keys of its direct
/// dependencies.
pub struct FlatPackage {
    pub name: String,
    pub vspec: String,
    pub info: PackageInfo,
    pub is_dev: bool,
    pub children: Vec<String>,
}

/// The flat output of a resolution pass: one entry per `name@spec` key.
pub struct Resolution {
    pub packages: Vec<(String, FlatPackage)>,
}

/// A node of the rebuilt dependency tree: a concrete package, its selected
/// description, and its materialized children. A cycle in the flat graph
/// appears as the circular stub, which has no children.
pub struct ResolvedPackage {
    pub name: String,
    pub version: String,
    pub info: PackageInfo,
    pub dependencies: Vec<ResolvedPackage>,
    pub is_dev: bool,
}

/// The sentinel node standing where a dependency cycle was broken.
pub open spec fn is_circular_stub(t: ResolvedPackage) -> bool {
    t.name@ == "circular"@ && t.dependencies@.len() == 0
}

/// The non-recursive part of tree soundness at one node: the node copies the
/// flat entry stored under `k`.
pub open spec fn node_matches(pk: Seq<(String, FlatPackage)>, k: Seq<char>, t: ResolvedPackage) -> bool {
    &&& has_res_key(pk, k)
    &&& t.name@ == res_flat(pk, k).name@
    &&& t.version@ == res_flat(pk, k).info.version@
    &&& t.info@ == res_flat(pk, k).info@
    &&& t.is_dev == res_flat(pk, k).is_dev
    &&& t.dependencies@.len() == res_flat(pk, k).children@.len()
}

/// Tree soundness at a key: the node is the circular stub, or it copies the
/// flat entry stored under `k` and its c-th child follows that entry's c-th
/// child key, recursively — so the rebuilt tree has exactly the shape the
/// flat dependency graph draws.
pub open spec fn tree_follows_key(
    pk: Seq<(String, FlatPackage)>,
    k: Seq<char>,
    t: ResolvedPackage,
) -> bool
    decreases t,
{
    ||| is_circular_stub(t)
    ||| (node_matches(pk, k, t) && (forall|c: int|
        0 <= c < t.dependencies@.len() ==> tree_follows_key(
            pk,
            res_flat(pk, k).children@[c]@,
            #[trigger] t.dependencies@[c],
        )))
}

/// The resolver's input: a snapshot of registry answers, one per package
/// name. The network fetches that fill it happen outside the library.
pub struct PackageResolver {
    pub registry: Vec<(String, NpmRegistryResponse)>,
}

/// Some registry entry answers for this package name.
pub open spec fn has_pkg(reg: Seq<(String, NpmRegistryResponse)>, name: Seq<char>) -> bool {
    exists|i: int| 0 <= i < reg.len() && (#[trigger] reg[i].0@) == name
}

/// The index of the registry entry for this name.
pub open spec fn pkg_ix(reg: Seq<(String, NpmRegistryResponse)>, name: Seq<char>) -> int {
    choose|i: int| 0 <= i < reg.len() && (#[trigger] reg[i].0@) == name
}

/// The registry answer for this name.
pub open spec fn response_of(
    reg: Seq<(String, NpmRegistryResponse)>,
    name: Seq<char>,
) -> NpmRegistryResponse {
    reg[pkg_ix(reg, name)].1
}

/// Registry names are pairwise distinct and every answer is well-formed.
pub open spec fn wf_registry(reg: Seq<(String, NpmRegistryResponse)>) -> bool {
    &&& forall|i: int, j: int|
        0 <= i < j < reg.len() ==> (#[trigger] reg[i].0@) != (#[trigger] reg[j].0@)
    &&& forall|i: int| 0 <= i < reg.len() ==> wf_response((#[trigger] reg[i]).1)
}

/// Under distinct names, a registry hit is the unique witness.
pub proof fn lemma_pkg_ix_unique(reg: Seq<(String, NpmRegistryResponse)>, name: Seq<char>, i: int)
    requires
        wf_registry(reg),
        0 <= i < reg.len(),
        reg[i].0@ == name,
    ensures
        has_pkg(reg, name),
        pkg_ix(reg, name) == i,
{
    assert(has_pkg(reg, name));
    let k = pkg_ix(reg, name);
    if k != i {
        if k < i {
            assert(reg[k].0@ != reg[i].0@);
        } else {
            assert(reg[i].0@ != reg[k].0@);
        }
    }
}

/// What the selection policy yields for a name and spec against a snapshot:
/// `None` also when the name itself is unknown.
pub open spec fn spec_select_in(
    reg: Seq<(String, NpmRegistryResponse)>,
    name: Seq<char>,
    vspec: Seq<char>,
) -> Option<PackageInfo> {
    if has_pkg(reg, name) {
        spec_select(response_of(reg, name), vspec)
    } else {
        Option::None
    }
}

/// The dependency keys a description induces, in map order.
pub open spec fn dep_keys_spec(deps: Option<Seq<(Seq<char>, Seq<char>)>>) -> Seq<Seq<char>> {
    match deps {
        Option::None => Seq::empty(),
        Option::Some(ds) => ds.map_values(|d: (Seq<char>, Seq<char>)| key_of(d.0, d.1)),
    }
}

/// Some resolution entry carries this key.
pub open spec fn has_res_key(pk: Seq<(String, FlatPackage)>, k: Seq<char>) -> bool {
    exists|i: int| 0 <= i < pk.len() && (#[trigger] pk[i].0@) == k
}

/// The index of the resolution entry with this key.
pub open spec fn res_ix(pk: Seq<(String, FlatPackage)>, k: Seq<char>) -> int {
    choose|i: int| 0 <= i < pk.len() && (#[trigger] pk[i].0@) == k
}

/// The entry stored under this key.
pub open spec fn res_flat(pk: Seq<(String, FlatPackage)>, k: Seq<char>) -> FlatPackage {
    pk[res_ix(pk, k)].1
}

/// Under distinct keys, a resolution hit is the unique witness.
pub proof fn lemma_res_ix_unique(pk: Seq<(String, FlatPackage)>, k: Seq<char>, i: int)
    requires
        forall|a: int, b: int|
            0 <= a < b < pk.len() ==> (#[trigger] pk[a].0@) != (#[trigger] pk[b].0@),
        0 <= i < pk.len(),
        pk[i].0@ == k,
    ensures
        has_res_key(pk, k),
        res_ix(pk, k) == i,
{
    assert(has_res_key(pk, k));
    let m = res_ix(pk, k);
    if m != i {
        if m < i {
            assert(pk[m].0@ != pk[i].0@);
        } else {
            assert(pk[i].0@ != pk[m].0@);
        }
    }
}

/// One entry is sound: its key matches its contents, its description is what
/// the policy selects for its name and spec, and its child keys are exactly
/// the keys its dependency map induces.
pub open spec fn entry_ok(reg: Seq<(String, NpmRegistryResponse)>, e: (String, FlatPackage)) -> bool {
    &&& e.0@ == key_of(e.1.name@, e.1.vspec@)
    &&& (spec_select_in(reg, e.1.name@, e.1.vspec@) matches Option::Some(pi) && pi@ == e.1.info@)
    &&& e.1.children.deep_view() == dep_keys_spec(e.1.info@.dependencies)
}

/// A sound, closed resolution: keys are unique, every entry is sound, and
/// every child key has its own entry.
pub open spec fn wf_resolution(
    reg: Seq<(String, NpmRegistryResponse)>,
    pk: Seq<(String, FlatPackage)>,
) -> bool {
    &&& forall|a: int, b: int|
        0 <= a < b < pk.len() ==> (#[trigger] pk[a].0@) != (#[trigger] pk[b].0@)
    &&& forall|i: int| 0 <= i < pk.len() ==> entry_ok(reg, #[trigger] pk[i])
    &&& forall|i: int, c: int|
        0 <= i < pk.len() && 0 <= c < pk[i].1.children@.len() ==> has_res_key(
            pk,
            (#[trigger] pk[i].1.children@[c]@),
        )
}

/// There is a dependency entry at position `di` of version `vi` of registry
/// entry `ri`.
pub open spec fn reg_dep_in_range(
    reg: Seq<(String, NpmRegistryResponse)>,
    ri: int,
    vi: int,
    di: int,
) -> bool {
    &&& 0 <= ri < reg.len()
    &&& 0 <= vi < reg[ri].1.versions@.len()
    &&& reg[ri].1.versions@[vi].1.dependencies is Some
    &&& 0 <= di < reg[ri].1.versions@[vi].1.dependencies->Some_0@.len()
}

/// The key that dependency entry induces.
pub open spec fn reg_dep_key(
    reg: Seq<(String, NpmRegistryResponse)>,
    ri: int,
    vi: int,
    di: int,
) -> Seq<char> {
    key_of(reg_dep_name(reg, ri, vi, di), reg_dep_spec(reg, ri, vi, di))
}

/// The name of that dependency entry.
pub open spec fn reg_dep_name(
    reg: Seq<(String, NpmRegistryResponse)>,
    ri: int,
    vi: int,
    di: int,
) -> Seq<char> {
    reg[ri].1.versions@[vi].1.dependencies->Some_0@[di].0@
}

/// The version spec of that dependency entry.
pub open spec fn reg_dep_spec(
    reg: Seq<(String, NpmRegistryResponse)>,
    ri: int,
    vi: int,
    di: int,
) -> Seq<char> {
    reg[ri].1.versions@[vi].1.dependencies->Some_0@[di].1@
}

/// Every dependency spec mentioned anywhere in the snapshot selects a
/// version. Together with a selectable root this owes the resolver success.
pub open spec fn all_deps_selectable(reg: Seq<(String, NpmRegistryResponse)>) -> bool {
    forall|ri: int, vi: int, di: int|
        reg_dep_in_range(reg, ri, vi, di) ==> spec_select_in(
            reg,
            #[trigger] reg_dep_name(reg, ri, vi, di),
            reg_dep_spec(reg, ri, vi, di),
        ) is Some
}

/// Some work item in the stack carries this key.
pub open spec fn in_stack(st: Seq<(String, String, bool)>, k: Seq<char>) -> bool {
    exists|j: int| 0 <= j < st.len() && key_of((#[trigger] st[j]).0@, st[j].1@) == k
}

/// Every dependency key mentioned anywhere in the snapshot is in `u`.
pub open spec fn universe_covers(
    reg: Seq<(String, NpmRegistryResponse)>,
    u: Seq<Seq<char>>,
) -> bool {
    forall|ri: int, vi: int, di: int|
        reg_dep_in_range(reg, ri, vi, di) ==> u.contains(#[trigger] reg_dep_key(reg, ri, vi, di))
}

/// No description in the snapshot declares more than `m` dependencies.
pub open spec fn bounded_deps(reg: Seq<(String, NpmRegistryResponse)>, m: int) -> bool {
    forall|ri: int, vi: int|
        0 <= ri < reg.len() && 0 <= vi < reg[ri].1.versions@.len() ==> (match (
        #[trigger] reg[ri].1.versions@[vi]).1.dependencies {
            Option::Some(ds) => ds@.len() <= m,
            Option::None => true,
        })
}

/// How many universe slots are not yet resolved.
pub open spec fn unresolved_count(u: Seq<Seq<char>>, pk: Seq<(String, FlatPackage)>) -> int
    decreases u.len(),
{
    if u.len() == 0 {
        0
    } else {
        unresolved_count(u.drop_last(), pk) + (if has_res_key(pk, u.last()) {
            0int
        } else {
            1int
        })
    }
}

/// The unresolved count sits between zero and the universe size.
pub proof fn lemma_unresolved_bounds(u: Seq<Seq<char>>, pk: Seq<(String, FlatPackage)>)
    ensures
        0 <= unresolved_count(u, pk) <= u.len(),
    decreases u.len(),
{
    if u.len() > 0 {
        lemma_unresolved_bounds(u.drop_last(), pk);
    }
}

/// Adding an entry never increases the unresolved count.
pub proof fn lemma_unresolved_mono(
    u: Seq<Seq<char>>,
    pk: Seq<(String, FlatPackage)>,
    e: (String, FlatPackage),
)
    ensures
        unresolved_count(u, pk.push(e)) <= unresolved_count(u, pk),
    decreases u.len(),
{
    if u.len() > 0 {
        lemma_unresolved_mono(u.drop_last(), pk, e);
        if has_res_key(pk, u.last()) {
            let i = choose|i: int| 0 <= i < pk.len() && (#[trigger] pk[i].0@) == u.last();
            assert(pk.push(e)[i].0@ == u.last());
        }
    }
}

/// Resolving a key that the universe holds strictly shrinks the count.
pub proof fn lemma_unresolved_strict(
    u: Seq<Seq<char>>,
    pk: Seq<(String, FlatPackage)>,
    e: (String, FlatPackage),
)
    requires
        u.contains(e.0@),
        !has_res_key(pk, e.0@),
    ensures
        unresolved_count(u, pk.push(e)) < unresolved_count(u, pk),
    decreases u.len(),
{
    lemma_unresolved_mono(u.drop_last(), pk, e);
    if u.last() == e.0@ {
        assert(!has_res_key(pk, u.last()));
        assert(pk.push(e)[pk.len() as int].0@ == u.last());
        assert(has_res_key(pk.push(e), u.last()));
    } else {
        let i = choose|i: int| 0 <= i < u.len() && u[i] == e.0@;
        assert(u.drop_last()[i] == e.0@);
        assert(u.drop_last().contains(e.0@));
        lemma_unresolved_strict(u.drop_last(), pk, e);
        if has_res_key(pk, u.last()) {
            let j = choose|j: int| 0 <= j < pk.len() && (#[trigger] pk[j].0@) == u.last();
            assert(pk.push(e)[j].0@ == u.last());
        }
    }
}

/// Whether a key already has a resolution entry.
fn contains_res_key(pk: &Vec<(String, FlatPackage)>, k: &str) -> (r: bool)
    ensures
        r == has_res_key(pk@, k@),
{
    let mut i: usize = 0;
    while i < pk.len()
        invariant
            i <= pk@.len(),
            forall|j: int| 0 <= j < i ==> (#[trigger] pk@[j].0@) != k@,
        decreases pk@.len() - i,
    {
        if string_eq(pk[i].0.as_str(), k) {
            assert(pk@[i as int].0@ == k@);
            return true;
        }
        i = i + 1;
    }
    false
}

/// The index of the registry entry answering for this name.
fn find_pkg(reg: &Vec<(String, NpmRegistryResponse)>, name: &str) -> (r: Option<usize>)
    ensures
        match r {
            Some(i) => i < reg@.len() && reg@[i as int].0@ == name@,
            None => !has_pkg(reg@, name@),
        },
{
    let mut i: usize = 0;
    while i < reg.len()
        invariant
            i <= reg@.len(),
            forall|j: int| 0 <= j < i ==> (#[trigger] reg@[j].0@) != name@,
        decreases reg@.len() - i,
    {
        if string_eq(reg[i].0.as_str(), name) {
            return Some(i);
        }
        i = i + 1;
    }
    None
}

/// Collects every dependency key the snapshot mentions.
fn dep_key_universe(reg: &Vec<(String, NpmRegistryResponse)>) -> (u: Vec<String>)
    ensures
        universe_covers(reg@, u.deep_view()),
{
    let mut u: Vec<String> = Vec::new();
    let mut ri: usize = 0;
    while ri < reg.len()
        invariant
            ri <= reg@.len(),
            forall|a: int, vi: int, di: int|
                reg_dep_in_range(reg@, a, vi, di) && a < ri ==> u.deep_view().contains(
                    #[trigger] reg_dep_key(reg@, a, vi, di),
                ),
        decreases reg@.len() - ri,
    {
        let versions = &reg[ri].1.versions;
        let mut vi: usize = 0;
        while vi < versions.len()
            invariant
                ri < reg@.len(),
                versions == &reg@[ri as int].1.versions,
                vi <= versions@.len(),
                forall|a: int, v: int, di: int|
                    reg_dep_in_range(reg@, a, v, di) && a < ri ==> u.deep_view().contains(
                        #[trigger] reg_dep_key(reg@, a, v, di),
                    ),
                forall|v: int, di: int|
                    reg_dep_in_range(reg@, ri as int, v, di) && v < vi ==> u.deep_view().contains(
                        #[trigger] reg_dep_key(reg@, ri as int, v, di),
                    ),
            decreases versions@.len() - vi,
        {
            if let Some(deps) = &versions[vi].1.dependencies {
                let mut di: usize = 0;
                while di < deps.len()
                    invariant
                        ri < reg@.len(),
                        versions == &reg@[ri as int].1.versions,
                        vi < versions@.len(),
                        reg@[ri as int].1.versions@[vi as int].1.dependencies is Some,
                        deps@ == reg@[ri as int].1.versions@[vi as int].1.dependencies->Some_0@,
                        di <= deps@.len(),
                        forall|a: int, v: int, d: int|
                            reg_dep_in_range(reg@, a, v, d) && a < ri ==> u.deep_view().contains(
                                #[trigger] reg_dep_key(reg@, a, v, d),
                            ),
                        forall|v: int, d: int|
                            reg_dep_in_range(reg@, ri as int, v, d) && v < vi
                                ==> u.deep_view().contains(
                                #[trigger] reg_dep_key(reg@, ri as int, v, d),
                            ),
                        forall|d: int|
                            reg_dep_in_range(reg@, ri as int, vi as int, d) && d < di
                                ==> u.deep_view().contains(
                                #[trigger] reg_dep_key(reg@, ri as int, vi as int, d),
                            ),
                    decreases deps@.len() - di,
                {
                    let ghost prev = u.deep_view();
                    let k = make_key(deps[di].0.as_str(), deps[di].1.as_str());
                    let ghost kv = k@;
                    u.push(k);
                    proof {
                        assert(u.deep_view() =~= prev.push(kv));
                        assert(u.deep_view()[prev.len() as int] == reg_dep_key(
                            reg@,
                            ri as int,
                            vi as int,
                            di as int,
                        ));
                        assert forall|x: Seq<char>| prev.contains(x) implies u.deep_view().contains(
                            x,
                        ) by {
                            let j = choose|j: int| 0 <= j < prev.len() && prev[j] == x;
                            assert(u.deep_view()[j] == x);
                        }
                    }
                    di = di + 1;
                }
            }
            vi = vi + 1;
        }
        ri = ri + 1;
    }
    u
}

impl PackageResolver {
    /// A resolver over a fetched snapshot.
    pub fn new(registry: Vec<(String, NpmRegistryResponse)>) -> (r: Self)
        ensures
            r.registry@ == registry@,
    {
        PackageResolver { registry }
    }

    /// Worklist resolution of one root: expands the root spec and all
    /// transitive dependency specs into one sound, closed `Resolution`.
    /// Fails exactly on a name the snapshot lacks or a spec that selects no
    /// version; when every spec in reach selects, success is owed.
    pub fn resolve_package(
        &self,
        root_name: &str,
        root_version_spec: &str,
        root_is_dev: bool,
    ) -> (r: Result<Resolution, PkgError>)
        requires
            wf_registry(self.registry@),
        ensures
            ({
                let reg = self.registry@;
                let root_key = key_of(root_name@, root_version_spec@);
                match r {
                    Result::Ok(res) => {
                        &&& wf_resolution(reg, res.packages@)
                        &&& has_res_key(res.packages@, root_key)
                        &&& res_flat(res.packages@, root_key).is_dev == root_is_dev
                        &&& res_flat(res.packages@, root_key).name@ == root_name@
                        &&& res_flat(res.packages@, root_key).vspec@ == root_version_spec@
                        &&& forall|i: int|
                            0 <= i < res.packages@.len() && (#[trigger] res.packages@[i]).1.is_dev
                                ==> res.packages@[i].0@ == root_key
                    },
                    Result::Err(e) => match e {
                        PkgError::NotFound(n) => !has_pkg(reg, n@),
                        PkgError::VersionNotFound(n, v) => has_pkg(reg, n@) && spec_select_in(
                            reg,
                            n@,
                            v@,
                        ) is None,
                        _ => false,
                    },
                }
            }),
            (spec_select_in(self.registry@, root_name@, root_version_spec@) is Some
                && all_deps_selectable(self.registry@)) ==> r is Ok,
    {
        let ghost reg = self.registry@;
        let ghost root_key = key_of(root_name@, root_version_spec@);

        let universe = dep_key_universe(&self.registry);
        let max_deps = max_deps_bound(&self.registry);
        let ghost useq = universe.deep_view().push(root_key);
        proof {
            assert forall|ri: int, vi: int, di: int|
                reg_dep_in_range(reg, ri, vi, di) implies useq.contains(
                #[trigger] reg_dep_key(reg, ri, vi, di),
            ) by {
                assert(universe.deep_view().contains(reg_dep_key(reg, ri, vi, di)));
                let j = choose|j: int|
                    0 <= j < universe.deep_view().len() && universe.deep_view()[j] == reg_dep_key(
                        reg,
                        ri,
                        vi,
                        di,
                    );
                assert(useq[j] == reg_dep_key(reg, ri, vi, di));
            }
            assert(useq[useq.len() - 1] == root_key);
            assert(useq.contains(root_key));
        }

        let mut stack: Vec<(String, String, bool)> = Vec::new();
        stack.push((root_name.to_owned(), root_version_spec.to_owned(), root_is_dev));
        let mut resolved: Vec<(String, FlatPackage)> = Vec::new();

        while stack.len() != 0
            invariant
                wf_registry(reg),
                reg == self.registry@,
                root_key == key_of(root_name@, root_version_spec@),
                useq == universe.deep_view().push(root_key),
                universe_covers(reg, useq),
                useq.contains(root_key),
                bounded_deps(reg, max_deps as int),
                // every work item stays inside the finite key universe
                forall|j: int|
                    0 <= j < stack@.len() ==> useq.contains(
                        key_of((#[trigger] stack@[j]).0@, stack@[j].1@),
                    ),
                // only the root item carries the dev flag
                forall|j: int|
                    0 <= j < stack@.len() && (#[trigger] stack@[j]).2 ==> key_of(
                        stack@[j].0@,
                        stack@[j].1@,
                    ) == root_key,
                // under the success hypothesis, every work item selects
                (spec_select_in(reg, root_name@, root_version_spec@) is Some
                    && all_deps_selectable(reg)) ==> forall|j: int|
                    0 <= j < stack@.len() ==> spec_select_in(
                        reg,
                        (#[trigger] stack@[j]).0@,
                        stack@[j].1@,
                    ) is Some,
                // the resolution built so far is sound
                forall|a: int, b: int|
                    0 <= a < b < resolved@.len() ==> (#[trigger] resolved@[a].0@) != (
                    #[trigger] resolved@[b].0@),
                forall|i: int| 0 <= i < resolved@.len() ==> entry_ok(reg, #[trigger] resolved@[i]),
                forall|i: int, c: int|
                    0 <= i < resolved@.len() && 0 <= c < resolved@[i].1.children@.len()
                        ==> has_res_key(resolved@, (#[trigger] resolved@[i].1.children@[c]@))
                        || in_stack(stack@, resolved@[i].1.children@[c]@),
                forall|i: int|
                    0 <= i < resolved@.len() && (#[trigger] resolved@[i]).1.is_dev
                        ==> resolved@[i].0@ == root_key,
                // the root is either the sole pending item or already resolved
                (resolved@.len() == 0 && stack@.len() == 1 && stack@[0].0@ == root_name@
                    && stack@[0].1@ == root_version_spec@ && stack@[0].2 == root_is_dev) || (
                has_res_key(resolved@, root_key) && res_flat(resolved@, root_key).is_dev
                    == root_is_dev && res_flat(resolved@, root_key).name@ == root_name@
                    && res_flat(resolved@, root_key).vspec@ == root_version_spec@),
            decreases
                    unresolved_count(useq, resolved@) * (max_deps as int + 1) + stack@.len(),
        {
            proof {
                lemma_unresolved_bounds(useq, resolved@);
            }
            let ghost pre_stack = stack@;
            let ghost pre_res = resolved@;
            let item = stack.pop().unwrap();
            let ghost item_key = key_of(item.0@, item.1@);
            proof {
                assert(pre_stack[pre_stack.len() - 1] == item);
                assert(useq.contains(item_key));
            }
            let key = make_key(item.0.as_str(), item.1.as_str());
            if contains_res_key(&resolved, key.as_str()) {
                // Already resolved: dropping the item keeps every invariant.
                proof {
                    assert forall|i: int, c: int|
                        0 <= i < resolved@.len() && 0 <= c < resolved@[i].1.children@.len()
                            implies has_res_key(
                        resolved@,
                        (#[trigger] resolved@[i].1.children@[c]@),
                    ) || in_stack(stack@, resolved@[i].1.children@[c]@) by {
                        let ck = resolved@[i].1.children@[c]@;
                        if !has_res_key(resolved@, ck) {
                            let j = choose|j: int|
                                0 <= j < pre_stack.len() && key_of(
                                    (#[trigger] pre_stack[j]).0@,
                                    pre_stack[j].1@,
                                ) == ck;
                            if j < pre_stack.len() - 1 {
                                assert(key_of((stack@[j]).0@, stack@[j].1@) == ck);
                            } else {
                                assert(ck == item_key);
                            }
                        }
                    }
                }
            } else {
                match find_pkg(&self.registry, item.0.as_str()) {
                    None => {
                        proof {
                            if spec_select_in(reg, root_name@, root_version_spec@) is Some
                                && all_deps_selectable(reg) {
                                assert(spec_select_in(
                                    reg,
                                    pre_stack[pre_stack.len() - 1].0@,
                                    pre_stack[pre_stack.len() - 1].1@,
                                ) is Some);
                            }
                        }
                        return Err(PkgError::NotFound(item.0));
                    },
                    Some(pi) => {
                        proof {
                            lemma_pkg_ix_unique(reg, item.0@, pi as int);
                        }
                        let selected = self.registry[pi].1.select_version(item.1.as_str());
                        match selected {
                            None => {
                                proof {
                                    if spec_select_in(reg, root_name@, root_version_spec@) is Some
                                        && all_deps_selectable(reg) {
                                        assert(spec_select_in(
                                            reg,
                                            pre_stack[pre_stack.len() - 1].0@,
                                            pre_stack[pre_stack.len() - 1].1@,
                                        ) is Some);
                                    }
                                }
                                return Err(PkgError::VersionNotFound(item.0, item.1));
                            },
                            Some(info_ref) => {
                                let ghost resp = reg[pi as int].1;
                                proof {
                                    assert(spec_select(resp, item.1@) == Option::Some(*info_ref));
                                }
                                let info = info_ref.duplicate();
                                // The selected description is one of the
                                // response's version entries.
                                let ghost w = choose|w: int|
                                    0 <= w < resp.versions@.len() && resp.versions@[w].1
                                        == *info_ref;
                                proof {
                                    assert(exists|w: int|
                                        0 <= w < resp.versions@.len() && resp.versions@[w].1
                                            == *info_ref) by {
                                        if item.1@ == "latest"@ || !crate::version::spec_is_exact_version(
                                            item.1@,
                                        ) {
                                            let tv = crate::registry::tag_value(
                                                resp.dist_tags@,
                                                "latest"@,
                                            );
                                            assert(has_version(resp.versions@, tv));
                                            let vx = version_ix(resp.versions@, tv);
                                            assert(resp.versions@[vx].1 == *info_ref);
                                        } else {
                                            assert(has_version(resp.versions@, item.1@));
                                            let vx = version_ix(resp.versions@, item.1@);
                                            assert(resp.versions@[vx].1 == *info_ref);
                                        }
                                    }
                                }
                                let mut children: Vec<String> = Vec::new();
                                let ghost mid_stack = stack@;
                                if let Some(deps) = &info.dependencies {
                                    proof {
                                        assert(info@ == resp.versions@[w].1@);
                                        assert(resp.versions@[w].1.dependencies is Some);
                                        assert(deps.deep_view() == resp.versions@[w
                                            ].1.dependencies->Some_0.deep_view());
                                    }
                                    let mut d: usize = 0;
                                    while d < deps.len()
                                        invariant
                                            wf_registry(reg),
                                            reg == self.registry@,
                                            useq == universe.deep_view().push(root_key),
                                            universe_covers(reg, useq),
                                            bounded_deps(reg, max_deps as int),
                                            0 <= pi < reg.len(),
                                            0 <= w < reg[pi as int].1.versions@.len(),
                                            reg[pi as int].1.versions@[w].1.dependencies is Some,
                                            deps.deep_view() == reg[pi as int
                                                ].1.versions@[w].1.dependencies->Some_0.deep_view(),
                                            d <= deps@.len(),
                                            stack@.len() == mid_stack.len() + d,
                                            forall|j: int|
                                                0 <= j < mid_stack.len() ==> (#[trigger] stack@[j])
                                                    == mid_stack[j],
                                            forall|t: int|
                                                0 <= t < d ==> (#[trigger] stack@[mid_stack.len()
                                                    + t]).0@ == deps@[t].0@ && stack@[mid_stack.len()
                                                    + t].1@ == deps@[t].1@ && stack@[mid_stack.len()
                                                    + t].2 == false,
                                            children@.len() == d,
                                            forall|t: int|
                                                0 <= t < d ==> (#[trigger] children@[t]@) == key_of(
                                                    deps@[t].0@,
                                                    deps@[t].1@,
                                                ),
                                            forall|j: int|
                                                0 <= j < mid_stack.len() ==> useq.contains(
                                                    key_of(
                                                        (#[trigger] mid_stack[j]).0@,
                                                        mid_stack[j].1@,
                                                    ),
                                                ),
                                            forall|j: int|
                                                0 <= j < mid_stack.len() && (
                                                #[trigger] mid_stack[j]).2 ==> key_of(
                                                    mid_stack[j].0@,
                                                    mid_stack[j].1@,
                                                ) == root_key,
                                            (spec_select_in(reg, root_name@, root_version_spec@)
                                                is Some && all_deps_selectable(reg)) ==> forall|
                                                j: int,
                                            |
                                                0 <= j < mid_stack.len() ==> spec_select_in(
                                                    reg,
                                                    (#[trigger] mid_stack[j]).0@,
                                                    mid_stack[j].1@,
                                                ) is Some,
                                            forall|t: int|
                                                0 <= t < d ==> useq.contains(
                                                    key_of(
                                                        (#[trigger] stack@[mid_stack.len() + t]).0@,
                                                        stack@[mid_stack.len() + t].1@,
                                                    ),
                                                ),
                                            (spec_select_in(reg, root_name@, root_version_spec@)
                                                is Some && all_deps_selectable(reg)) ==> forall|
                                                t: int,
                                            |
                                                0 <= t < d ==> spec_select_in(
                                                    reg,
                                                    (#[trigger] stack@[mid_stack.len() + t]).0@,
                                                    stack@[mid_stack.len() + t].1@,
                                                ) is Some,
                                        decreases deps@.len() - d,
                                    {
                                        let ghost dd = d as int;
                                        proof {
                                            let gdeps = reg[pi as int
                                                ].1.versions@[w].1.dependencies->Some_0;
                                            assert(deps.deep_view().len() == deps@.len());
                                            assert(gdeps.deep_view().len() == gdeps@.len());
                                            assert(deps.deep_view()[dd] == (
                                            deps@[dd].0@,
                                            deps@[dd].1@,
                                            ));
                                            assert(gdeps.deep_view()[dd] == (
                                            gdeps@[dd].0@,
                                            gdeps@[dd].1@,
                                            ));
                                            assert(reg_dep_in_range(reg, pi as int, w, dd));
                                            assert(reg_dep_name(reg, pi as int, w, dd)
                                                == deps@[dd].0@);
                                            assert(reg_dep_spec(reg, pi as int, w, dd)
                                                == deps@[dd].1@);
                                            assert(useq.contains(reg_dep_key(reg, pi as int, w, dd)));
                                            if spec_select_in(reg, root_name@, root_version_spec@)
                                                is Some && all_deps_selectable(reg) {
                                                assert(spec_select_in(
                                                    reg,
                                                    reg_dep_name(reg, pi as int, w, dd),
                                                    reg_dep_spec(reg, pi as int, w, dd),
                                                ) is Some);
                                            }
                                        }
                                        stack.push((deps[d].0.clone(), deps[d].1.clone(), false));
                                        children.push(make_key(deps[d].0.as_str(), deps[d].1.as_str()));
                                        d = d + 1;
                                    }
                                }
                                let ghost gkey = key@;
                                let ghost gchildren = children@;
                                let flat = FlatPackage {
                                    name: item.0,
                                    vspec: item.1,
                                    info,
                                    is_dev: item.2,
                                    children,
                                };
                                resolved.push((key, flat));
                                proof {
                                    let nres = resolved@;
                                    let ne = nres[pre_res.len() as int];
                                    assert(ne.0@ == item_key);
                                    // Soundness of the new entry.
                                    assert(spec_select_in(reg, ne.1.name@, ne.1.vspec@) matches
                                        Option::Some(p) && p@ == ne.1.info@);
                                    assert(ne.1.children.deep_view() =~= dep_keys_spec(
                                        ne.1.info@.dependencies,
                                    ));
                                    assert(entry_ok(reg, ne));
                                    // Keys stay unique.
                                    assert forall|a: int, b: int|
                                        0 <= a < b < nres.len() implies (#[trigger] nres[a].0@)
                                        != (#[trigger] nres[b].0@) by {
                                        if b == pre_res.len() {
                                            assert(pre_res[a].0@ != item_key);
                                        }
                                    }
                                    lemma_res_ix_unique(nres, item_key, pre_res.len() as int);
                                    // Every child key is resolved or pending.
                                    assert forall|i: int, c: int|
                                        0 <= i < nres.len() && 0 <= c
                                            < nres[i].1.children@.len() implies has_res_key(
                                        nres,
                                        (#[trigger] nres[i].1.children@[c]@),
                                    ) || in_stack(stack@, nres[i].1.children@[c]@) by {
                                        let ck = nres[i].1.children@[c]@;
                                        if i < pre_res.len() {
                                            if has_res_key(pre_res, ck) {
                                                let x = choose|x: int|
                                                    0 <= x < pre_res.len() && (
                                                    #[trigger] pre_res[x].0@) == ck;
                                                assert(nres[x].0@ == ck);
                                            } else if in_stack(pre_stack, ck) {
                                                let j = choose|j: int|
                                                    0 <= j < pre_stack.len() && key_of(
                                                        (#[trigger] pre_stack[j]).0@,
                                                        pre_stack[j].1@,
                                                    ) == ck;
                                                if j < pre_stack.len() - 1 {
                                                    assert(key_of(stack@[j].0@, stack@[j].1@)
                                                        == ck);
                                                } else {
                                                    assert(ck == item_key);
                                                    assert(nres[pre_res.len() as int].0@ == ck);
                                                }
                                            }
                                        } else {
                                            assert(i == pre_res.len());
                                            assert(ck == gchildren[c]@);
                                            assert(in_stack(stack@, ck)) by {
                                                assert(key_of(
                                                    stack@[mid_stack.len() + c].0@,
                                                    stack@[mid_stack.len() + c].1@,
                                                ) == ck);
                                            }
                                        }
                                    }
                                    // The whole stack stays inside the universe,
                                    // keeps the dev marking, and stays selectable
                                    // under the success hypothesis.
                                    assert forall|j: int| 0 <= j < stack@.len() implies useq.contains(
                                        key_of((#[trigger] stack@[j]).0@, stack@[j].1@),
                                    ) by {
                                        if j < mid_stack.len() {
                                            assert(stack@[j] == mid_stack[j]);
                                        } else {
                                            let t = j - mid_stack.len();
                                            assert(useq.contains(key_of(
                                                stack@[mid_stack.len() + t].0@,
                                                stack@[mid_stack.len() + t].1@,
                                            )));
                                        }
                                    }
                                    assert forall|j: int|
                                        0 <= j < stack@.len() && (#[trigger] stack@[j]).2 implies
                                        key_of(stack@[j].0@, stack@[j].1@) == root_key by {
                                        if j < mid_stack.len() {
                                            assert(stack@[j] == mid_stack[j]);
                                        } else {
                                            let t = j - mid_stack.len();
                                            assert(stack@[mid_stack.len() + t].2 == false);
                                        }
                                    }
                                    if spec_select_in(reg, root_name@, root_version_spec@) is Some
                                        && all_deps_selectable(reg) {
                                        assert forall|j: int| 0 <= j < stack@.len() implies
                                            spec_select_in(
                                            reg,
                                            (#[trigger] stack@[j]).0@,
                                            stack@[j].1@,
                                        ) is Some by {
                                            if j < mid_stack.len() {
                                                assert(stack@[j] == mid_stack[j]);
                                            } else {
                                                let t = j - mid_stack.len();
                                                assert(spec_select_in(
                                                    reg,
                                                    stack@[mid_stack.len() + t].0@,
                                                    stack@[mid_stack.len() + t].1@,
                                                ) is Some);
                                            }
                                        }
                                    }
                                    // The root stays resolved, or was resolved
                                    // just now with its dev flag.
                                    if has_res_key(pre_res, root_key) {
                                        let x = res_ix(pre_res, root_key);
                                        assert(pre_res[x].0@ == root_key);
                                        assert(nres[x] == pre_res[x]);
                                        lemma_res_ix_unique(nres, root_key, x);
                                    } else {
                                        assert(pre_res.len() == 0 && pre_stack.len() == 1);
                                        assert(item_key == key_of(
                                            pre_stack[pre_stack.len() - 1].0@,
                                            pre_stack[pre_stack.len() - 1].1@,
                                        ));
                                        assert(pre_stack[0].0@ == root_name@);
                                        assert(pre_stack[0].1@ == root_version_spec@);
                                        assert(pre_stack.len() - 1 == 0);
                                        assert(pre_stack[pre_stack.len() - 1] == pre_stack[0]);
                                        assert(key_of(pre_stack[0].0@, pre_stack[0].1@)
                                            == root_key);
                                        assert(item_key == root_key);
                                        assert(ne.1.name@ == root_name@);
                                        assert(ne.1.vspec@ == root_version_spec@);
                                    }
                                    // The measure shrinks: one more universe
                                    // key is resolved, a bounded batch of new
                                    // work was pushed.
                                    lemma_unresolved_strict(useq, pre_res, nres[pre_res.len() as int]);
                                    lemma_unresolved_bounds(useq, nres);
                                    let c0 = unresolved_count(useq, pre_res);
                                    let c1 = unresolved_count(useq, nres);
                                    let m1 = max_deps as int + 1;
                                    assert(c1 * m1 <= (c0 - 1) * m1) by (nonlinear_arith)
                                        requires
                                            c1 <= c0 - 1,
                                            m1 >= 1,
                                    ;
                                    assert((c0 - 1) * m1 == c0 * m1 - m1) by (nonlinear_arith);
                                    assert(stack@.len() <= pre_stack.len() - 1 + max_deps);
                                }
                            },
                        }
                    },
                }
            }
        }

        proof {
            assert forall|i: int, c: int|
                0 <= i < resolved@.len() && 0 <= c < resolved@[i].1.children@.len() implies
                has_res_key(resolved@, (#[trigger] resolved@[i].1.children@[c]@)) by {
                assert(!in_stack(stack@, resolved@[i].1.children@[c]@));
            }
        }
        Ok(Resolution { packages: resolved })
    }
}

/// A tree that some sound, closed resolution over this snapshot induces at
/// some key.
pub open spec fn tree_ok(reg: Seq<(String, NpmRegistryResponse)>, t: ResolvedPackage) -> bool {
    exists|pk: Seq<(String, FlatPackage)>, k: Seq<char>|
        wf_resolution(reg, pk) && #[trigger] tree_follows_key(pk, k, t)
}

/// A duplicate-free list of keys that all have resolution entries is no
/// longer than the entry list.
pub proof fn lemma_visited_bound(v: Seq<Seq<char>>, pk: Seq<(String, FlatPackage)>)
    requires
        v.no_duplicates(),
        forall|i: int| 0 <= i < v.len() ==> has_res_key(pk, #[trigger] v[i]),
    ensures
        v.len() <= pk.len(),
{
    broadcast use vstd::seq_lib::seq_to_set_is_finite;

    let keys = Seq::new(pk.len(), |i: int| pk[i].0@);
    v.unique_seq_to_set();
    keys.lemma_cardinality_of_set();
    assert forall|x: Seq<char>| v.to_set().contains(x) implies keys.to_set().contains(x) by {
        let i = choose|i: int| 0 <= i < v.len() && v[i] == x;
        let j = choose|j: int| 0 <= j < pk.len() && (#[trigger] pk[j].0@) == x;
        assert(keys[j] == x);
        assert(keys.contains(x));
    }
    vstd::set_lib::lemma_len_subset(v.to_set(), keys.to_set());
}

impl PackageResolver {
    /// Index of the resolution entry with this key.
    fn find_res_ix(res: &Resolution, k: &str) -> (r: Option<usize>)
        ensures
            match r {
                Some(i) => i < res.packages@.len() && res.packages@[i as int].0@ == k@,
                None => !has_res_key(res.packages@, k@),
            },
    {
        let mut i: usize = 0;
        while i < res.packages.len()
            invariant
                i <= res.packages@.len(),
                forall|j: int| 0 <= j < i ==> (#[trigger] res.packages@[j].0@) != k@,
            decreases res.packages@.len() - i,
        {
            if string_eq(res.packages[i].0.as_str(), k) {
                return Some(i);
            }
            i = i + 1;
        }
        None
    }

    /// Rebuilds the ownership tree under `key` from a flat resolution. A key
    /// already on the visiting path marks a cycle and comes back as the
    /// circular stub, so the walk never re-enters a node.
    pub fn build_dependency_tree(res: &Resolution, key: &str, visited: &mut Vec<String>) -> (t:
        ResolvedPackage)
        requires
            forall|a: int, b: int|
                0 <= a < b < res.packages@.len() ==> (#[trigger] res.packages@[a].0@) != (
                #[trigger] res.packages@[b].0@),
            forall|i: int, c: int|
                0 <= i < res.packages@.len() && 0 <= c < res.packages@[i].1.children@.len()
                    ==> has_res_key(res.packages@, (#[trigger] res.packages@[i].1.children@[c]@)),
            has_res_key(res.packages@, key@),
            old(visited).deep_view().no_duplicates(),
            forall|i: int|
                0 <= i < old(visited)@.len() ==> has_res_key(
                    res.packages@,
                    #[trigger] old(visited).deep_view()[i],
                ),
        ensures
            final(visited)@ == old(visited)@,
            tree_follows_key(res.packages@, key@, t),
            old(visited).deep_view().contains(key@) ==> is_circular_stub(t),
            !old(visited).deep_view().contains(key@) ==> node_matches(res.packages@, key@, t),
        decreases res.packages@.len() - visited@.len(),
    {
        proof {
            lemma_visited_bound(visited.deep_view(), res.packages@);
        }
        if vec_contains_str(visited, key) {
            return ResolvedPackage {
                name: String::from_str("circular"),
                version: String::from_str("0.0.0"),
                info: PackageInfo {
                    name: String::from_str("circular"),
                    version: String::from_str("0.0.0"),
                    description: None,
                    main: None,
                    bin: crate::registry::BinSpec::Missing,
                    dependencies: None,
                    peer_dependencies: None,
                    optional_dependencies: None,
                    dist: crate::registry::DistInfo {
                        tarball: String::new(),
                        shasum: String::new(),
                    },
                },
                dependencies: Vec::new(),
                is_dev: false,
            };
        }
        let ix = match Self::find_res_ix(res, key) {
            Some(ix) => ix,
            None => {
                proof {
                    assert(false);
                }
                vstd::pervasive::unreached()
            },
        };
        proof {
            lemma_res_ix_unique(res.packages@, key@, ix as int);
        }
        let ghost v0 = visited.deep_view();
        visited.push(key.to_owned());
        proof {
            assert(visited.deep_view() =~= v0.push(key@));
            assert(visited.deep_view().drop_last() =~= v0);
            assert forall|i: int|
                0 <= i < visited.deep_view().len() implies has_res_key(
                res.packages@,
                #[trigger] visited.deep_view()[i],
            ) by {
                if i < v0.len() {
                    assert(visited.deep_view()[i] == v0[i]);
                }
            }
        }
        let mut children: Vec<ResolvedPackage> = Vec::new();
        let n = res.packages[ix].1.children.len();
        let mut c: usize = 0;
        while c < n
            invariant
                forall|a: int, b: int|
                    0 <= a < b < res.packages@.len() ==> (#[trigger] res.packages@[a].0@) != (
                    #[trigger] res.packages@[b].0@),
                forall|i: int, cc: int|
                    0 <= i < res.packages@.len() && 0 <= cc < res.packages@[i].1.children@.len()
                        ==> has_res_key(
                        res.packages@,
                        (#[trigger] res.packages@[i].1.children@[cc]@),
                    ),
                ix < res.packages@.len(),
                n == res.packages@[ix as int].1.children@.len(),
                v0 == old(visited).deep_view(),
                visited.deep_view() == v0.push(key@),
                visited@.len() == old(visited)@.len() + 1,
                visited@.drop_last() == old(visited)@,
                visited.deep_view().no_duplicates(),
                forall|i: int|
                    0 <= i < visited@.len() ==> has_res_key(
                        res.packages@,
                        #[trigger] visited.deep_view()[i],
                    ),
                c <= n,
                children@.len() == c,
                has_res_key(res.packages@, key@),
                res_ix(res.packages@, key@) == ix,
                forall|q: int|
                    0 <= q < c ==> tree_follows_key(
                        res.packages@,
                        res.packages@[ix as int].1.children@[q]@,
                        #[trigger] children@[q],
                    ),
            decreases n - c,
        {
            proof {
                lemma_visited_bound(visited.deep_view(), res.packages@);
                assert(visited.deep_view().len() == visited@.len());
                assert(v0.len() == old(visited)@.len());
            }
            let child = Self::build_dependency_tree(
                res,
                res.packages[ix].1.children[c].as_str(),
                visited,
            );
            children.push(child);
            c = c + 1;
        }
        let _ = visited.pop();
        proof {
            assert(visited@ =~= old(visited)@);
            assert(visited.deep_view() =~= v0);
        }
        let f = &res.packages[ix].1;
        let node = ResolvedPackage {
            name: f.name.clone(),
            version: f.info.version.clone(),
            info: f.info.duplicate(),
            dependencies: children,
            is_dev: f.is_dev,
        };
        proof {
            assert(res_flat(res.packages@, key@) == res.packages@[ix as int].1);
            assert(node_matches(res.packages@, key@, node));
            assert forall|c2: int|
                0 <= c2 < node.dependencies@.len() implies tree_follows_key(
                res.packages@,
                res_flat(res.packages@, key@).children@[c2]@,
                #[trigger] node.dependencies@[c2],
            ) by {
                assert(node.dependencies@[c2] == children@[c2]);
            }
            assert(tree_follows_key(res.packages@, key@, node));
        }
        node
    }

    /// Resolves one root to its dependency tree.
    pub fn resolve_tree(&self, root_name: &str, root_version_spec: &str, root_is_dev: bool) -> (r:
        Result<ResolvedPackage, PkgError>)
        requires
            wf_registry(self.registry@),
        ensures
            ({
                let reg = self.registry@;
                match r {
                    Result::Ok(t) => tree_ok(reg, t) && t.name@ == root_name@ && t.is_dev
                        == root_is_dev && (spec_select_in(
                        reg,
                        root_name@,
                        root_version_spec@,
                    ) matches Option::Some(pi) && pi@ == t.info@) && t.version@
                        == t.info.version@,
                    Result::Err(e) => match e {
                        PkgError::NotFound(n) => !has_pkg(reg, n@),
                        PkgError::VersionNotFound(n, v) => has_pkg(reg, n@) && spec_select_in(
                            reg,
                            n@,
                            v@,
                        ) is None,
                        _ => false,
                    },
                }
            }),
            (spec_select_in(self.registry@, root_name@, root_version_spec@) is Some
                && all_deps_selectable(self.registry@)) ==> r is Ok,
    {
        let res = match self.resolve_package(root_name, root_version_spec, root_is_dev) {
            Ok(res) => res,
            Err(e) => {
                return Err(e);
            },
        };
        let key = make_key(root_name, root_version_spec);
        let mut visited: Vec<String> = Vec::new();
        proof {
            assert(visited.deep_view() =~= Seq::<Seq<char>>::empty());
        }
        let t = Self::build_dependency_tree(&res, key.as_str(), &mut visited);
        proof {
            let reg = self.registry@;
            let pk = res.packages@;
            let rk = key_of(root_name@, root_version_spec@);
            assert(node_matches(pk, rk, t));
            let i = res_ix(pk, rk);
            assert(entry_ok(reg, pk[i]));
            assert(res_flat(pk, rk).name@ == root_name@);
            assert(res_flat(pk, rk).vspec@ == root_version_spec@);
            assert(t.info@ == res_flat(pk, rk).info@);
            assert(t.version@ == t.info.version@);
            assert(tree_ok(reg, t)) by {
                assert(wf_resolution(reg, pk));
                assert(tree_follows_key(pk, rk, t));
            }
        }
        Ok(t)
    }
}

/// How many distinct names a node adds to `visited`, and the grown list:
/// a name already seen counts nothing, anything else counts once and then
/// its children are walked.
pub open spec fn spec_count_node(t: ResolvedPackage, visited: Seq<Seq<char>>) -> (int, Seq<
    Seq<char>,
>)
    decreases t, 0int,
{
    if visited.contains(t.name@) {
        (0, visited)
    } else {
        let inner = spec_count_list(t.dependencies@, visited.push(t.name@));
        (1 + inner.0, inner.1)
    }
}

/// `spec_count_node` folded over a forest, threading the seen names.
pub open spec fn spec_count_list(ts: Seq<ResolvedPackage>, visited: Seq<Seq<char>>) -> (int, Seq<
    Seq<char>,
>)
    decreases ts, ts.len(),
{
    if ts.len() == 0 {
        (0, visited)
    } else {
        let head = spec_count_node(ts[0], visited);
        let rest = spec_count_list(ts.skip(1), head.1);
        (head.0 + rest.0, rest.1)
    }
}

/// Counting grows `visited` by exactly the count, and never shrinks it.
pub proof fn lemma_count_node_growth(t: ResolvedPackage, visited: Seq<Seq<char>>)
    ensures
        spec_count_node(t, visited).1.len() == visited.len() + spec_count_node(t, visited).0,
        spec_count_node(t, visited).0 >= 0,
    decreases t, 0int,
{
    if !visited.contains(t.name@) {
        lemma_count_list_growth(t.dependencies@, visited.push(t.name@));
    }
}

/// List form of `lemma_count_node_growth`.
pub proof fn lemma_count_list_growth(ts: Seq<ResolvedPackage>, visited: Seq<Seq<char>>)
    ensures
        spec_count_list(ts, visited).1.len() == visited.len() + spec_count_list(ts, visited).0,
        spec_count_list(ts, visited).0 >= 0,
    decreases ts, ts.len(),
{
    if ts.len() > 0 {
        lemma_count_node_growth(ts[0], visited);
        lemma_count_list_growth(ts.skip(1), spec_count_node(ts[0], visited).1);
    }
}

/// Appending one tree to a forest counts the forest first, then the tree.
pub proof fn lemma_count_list_push(
    ts: Seq<ResolvedPackage>,
    t: ResolvedPackage,
    visited: Seq<Seq<char>>,
)
    ensures
        spec_count_list(ts.push(t), visited) == ({
            let pre = spec_count_list(ts, visited);
            let node = spec_count_node(t, pre.1);
            (pre.0 + node.0, node.1)
        }),
    decreases ts.len(),
{
    reveal_with_fuel(spec_count_list, 3);
    if ts.len() == 0 {
        assert(ts.push(t)[0] == t);
        assert(ts.push(t).skip(1) =~= Seq::<ResolvedPackage>::empty());
    } else {
        assert(ts.push(t)[0] == ts[0]);
        assert(ts.push(t).skip(1) =~= ts.skip(1).push(t));
        lemma_count_list_push(ts.skip(1), t, spec_count_node(ts[0], visited).1);
    }
}

/// One returned root tree answers one requested root: same name, same dev
/// flag, and the description the policy selects for the requested spec.
pub open spec fn root_matches(
    reg: Seq<(String, NpmRegistryResponse)>,
    pkg: (String, String, bool),
    t: ResolvedPackage,
) -> bool {
    &&& t.name@ == pkg.0@
    &&& t.is_dev == pkg.2
    &&& (spec_select_in(reg, pkg.0@, pkg.1@) matches Option::Some(pi) && pi@ == t.info@)
    &&& t.version@ == t.info.version@
}

/// Every requested root selects a version.
pub open spec fn all_roots_selectable(
    reg: Seq<(String, NpmRegistryResponse)>,
    packages: Seq<(String, String, bool)>,
) -> bool {
    forall|j: int|
        0 <= j < packages.len() ==> spec_select_in(
            reg,
            (#[trigger] packages[j]).0@,
            packages[j].1@,
        ) is Some
}

impl PackageResolver {
    /// Depth-first walk pushing each unseen package name once.
    fn count_visit(t: &ResolvedPackage, visited: &mut Vec<String>)
        ensures
            final(visited).deep_view() == spec_count_node(*t, old(visited).deep_view()).1,
        decreases *t,
    {
        if vec_contains_str(visited, t.name.as_str()) {
            return ;
        }
        let ghost v0 = visited.deep_view();
        visited.push(t.name.clone());
        proof {
            assert(visited.deep_view() =~= v0.push(t.name@));
            assert(t.dependencies@.take(0) =~= Seq::<ResolvedPackage>::empty());
        }
        let mut c: usize = 0;
        while c < t.dependencies.len()
            invariant
                c <= t.dependencies@.len(),
                v0 == old(visited).deep_view(),
                !v0.contains(t.name@),
                visited.deep_view() == spec_count_list(
                    t.dependencies@.take(c as int),
                    v0.push(t.name@),
                ).1,
            decreases t.dependencies@.len() - c,
        {
            proof {
                lemma_count_list_push(
                    t.dependencies@.take(c as int),
                    t.dependencies@[c as int],
                    v0.push(t.name@),
                );
                assert(t.dependencies@.take(c + 1) =~= t.dependencies@.take(c as int).push(
                    t.dependencies@[c as int],
                ));
            }
            Self::count_visit(&t.dependencies[c], visited);
            c = c + 1;
        }
        proof {
            assert(t.dependencies@.take(t.dependencies@.len() as int) =~= t.dependencies@);
        }
    }

    /// The number of distinct package names reachable from the roots; the
    /// installer sizes its progress tracking with it.
    pub fn count_total_packages(resolved: &Vec<ResolvedPackage>) -> (r: u64)
        ensures
            r as int == spec_count_list(resolved@, Seq::empty()).0,
    {
        let mut visited: Vec<String> = Vec::new();
        proof {
            assert(visited.deep_view() =~= Seq::<Seq<char>>::empty());
            assert(resolved@.take(0) =~= Seq::<ResolvedPackage>::empty());
        }
        let mut i: usize = 0;
        while i < resolved.len()
            invariant
                i <= resolved@.len(),
                visited.deep_view() == spec_count_list(
                    resolved@.take(i as int),
                    Seq::<Seq<char>>::empty(),
                ).1,
            decreases resolved@.len() - i,
        {
            proof {
                lemma_count_list_push(
                    resolved@.take(i as int),
                    resolved@[i as int],
                    Seq::<Seq<char>>::empty(),
                );
                assert(resolved@.take(i + 1) =~= resolved@.take(i as int).push(
                    resolved@[i as int],
                ));
            }
            Self::count_visit(&resolved[i], &mut visited);
            i = i + 1;
        }
        proof {
            assert(resolved@.take(resolved@.len() as int) =~= resolved@);
            lemma_count_list_growth(resolved@, Seq::empty());
            assert(visited.deep_view().len() == visited@.len());
        }
        visited.len() as u64
    }

    /// Resolves several roots to their dependency trees, in request order. A
    /// name the snapshot lacks, or a spec that selects no version, aborts the
    /// whole operation with that error, per the propagation policy; nothing
    /// is returned for the siblings. When every spec in reach selects,
    /// success is owed.
    pub fn resolve_multiple_packages(&self, packages: &Vec<(String, String, bool)>) -> (r: Result<
        Vec<ResolvedPackage>,
        PkgError,
    >)
        requires
            wf_registry(self.registry@),
        ensures
            r matches Ok(ts) ==> ts@.len() == packages@.len() && (forall|j: int|
                0 <= j < packages@.len() ==> root_matches(
                    self.registry@,
                    packages@[j],
                    #[trigger] ts@[j],
                )) && (forall|j: int|
                0 <= j < ts@.len() ==> tree_ok(self.registry@, #[trigger] ts@[j])),
            r matches Err(e) ==> (match e {
                PkgError::NotFound(n) => !has_pkg(self.registry@, n@),
                PkgError::VersionNotFound(n, v) => has_pkg(self.registry@, n@) && spec_select_in(
                    self.registry@,
                    n@,
                    v@,
                ) is None,
                _ => false,
            }),
            (all_deps_selectable(self.registry@) && all_roots_selectable(
                self.registry@,
                packages@,
            )) ==> r is Ok,
    {
        let ghost reg = self.registry@;
        let ghost hyp = all_deps_selectable(reg) && all_roots_selectable(reg, packages@);
        let mut out: Vec<ResolvedPackage> = Vec::new();
        let mut i: usize = 0;
        while i < packages.len()
            invariant
                wf_registry(reg),
                reg == self.registry@,
                hyp == (all_deps_selectable(reg) && all_roots_selectable(reg, packages@)),
                i <= packages@.len(),
                out@.len() == i,
                forall|j: int|
                    0 <= j < i ==> root_matches(reg, packages@[j], #[trigger] out@[j]),
                forall|j: int| 0 <= j < i ==> tree_ok(reg, #[trigger] out@[j]),
            decreases packages@.len() - i,
        {
            match self.resolve_tree(
                packages[i].0.as_str(),
                packages[i].1.as_str(),
                packages[i].2,
            ) {
                Ok(t) => {
                    out.push(t);
                },
                Err(e) => {
                    proof {
                        if hyp {
                            assert(spec_select_in(
                                reg,
                                packages@[i as int].0@,
                                packages@[i as int].1@,
                            ) is Some);
                            assert(false);
                        }
                    }
                    return Err(e);
                },
            }
            i = i + 1;
        }
        Ok(out)
    }
}

/// The largest dependency count any description in the snapshot declares.
fn max_deps_bound(reg: &Vec<(String, NpmRegistryResponse)>) -> (m: usize)
    ensures
        bounded_deps(reg@, m as int),
{
    let mut m: usize = 0;
    let mut ri: usize = 0;
    while ri < reg.len()
        invariant
            ri <= reg@.len(),
            forall|a: int, vi: int|
                0 <= a < ri && 0 <= vi < reg@[a].1.versions@.len() ==> (match (
                #[trigger] reg@[a].1.versions@[vi]).1.dependencies {
                    Option::Some(ds) => ds@.len() <= m,
                    Option::None => true,
                }),
        decreases reg@.len() - ri,
    {
        let versions = &reg[ri].1.versions;
        let mut vi: usize = 0;
        while vi < versions.len()
            invariant
                ri < reg@.len(),
                versions == &reg@[ri as int].1.versions,
                vi <= versions@.len(),
                forall|a: int, v: int|
                    0 <= a < ri && 0 <= v < reg@[a].1.versions@.len() ==> (match (
                    #[trigger] reg@[a].1.versions@[v]).1.dependencies {
                        Option::Some(ds) => ds@.len() <= m,
                        Option::None => true,
                    }),
                forall|v: int|
                    0 <= v < vi ==> (match (#[trigger] reg@[ri as int].1.versions@[v]).1.dependencies {
                        Option::Some(ds) => ds@.len() <= m,
                        Option::None => true,
                    }),
            decreases versions@.len() - vi,
        {
            if let Some(deps) = &versions[vi].1.dependencies {
                if deps.len() > m {
                    m = deps.len();
                }
            }
            vi = vi + 1;
        }
        ri = ri + 1;
    }
    m
}

} // verus!
