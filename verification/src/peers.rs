use vstd::prelude::*;
use crate::registry::PackageInfo;
use crate::text::string_eq;
use crate::version::{is_version_compatible, spec_is_version_compatible};

verus! {

/// One peer-dependency violation: `package` declares the peer with the given
/// spec, and the project tree has `installed_version` (the literal `missing`
/// when the peer is absent).
pub struct PeerConflict {
    pub package: String,
    pub peer_dependency: String,
    pub required_version: String,
    pub installed_version: String,
}

/// Character-level contents of a `PeerConflict`.
pub ghost struct ConflictModel {
    pub package: Seq<char>,
    pub peer_dependency: Seq<char>,
    pub required_version: Seq<char>,
    pub installed_version: Seq<char>,
}

impl View for PeerConflict {
    type V = ConflictModel;

    open spec fn view(&self) -> ConflictModel {
        ConflictModel {
            package: self.package@,
            peer_dependency: self.peer_dependency@,
            required_version: self.required_version@,
            installed_version: self.installed_version@,
        }
    }
}

impl DeepView for PeerConflict {
    type V = ConflictModel;

    open spec fn deep_view(&self) -> ConflictModel {
        self.view()
    }
}

/// A snapshot of one installed package as its manifest shows it: its name,
/// its concrete version, and the peers it declares.
pub struct InstalledManifest {
    pub name: String,
    pub version: String,
    pub peer_dependencies: Vec<(String, String)>,
}

/// Some snapshot entry carries this package name.
pub open spec fn im_has(ims: Seq<InstalledManifest>, n: Seq<char>) -> bool {
    exists|i: int| 0 <= i < ims.len() && (#[trigger] ims[i].name@) == n
}

/// The index of the snapshot entry with this name.
pub open spec fn im_ix(ims: Seq<InstalledManifest>, n: Seq<char>) -> int {
    choose|i: int| 0 <= i < ims.len() && (#[trigger] ims[i].name@) == n
}

/// The installed version of this name.
pub open spec fn im_version(ims: Seq<InstalledManifest>, n: Seq<char>) -> Seq<char> {
    ims[im_ix(ims, n)].version@
}

/// Snapshot names are pairwise distinct.
pub open spec fn wf_installed(ims: Seq<InstalledManifest>) -> bool {
    forall|i: int, j: int|
        0 <= i < j < ims.len() ==> (#[trigger] ims[i].name@) != (#[trigger] ims[j].name@)
}

/// Under distinct names, a snapshot hit is the unique witness.
pub proof fn lemma_im_ix_unique(ims: Seq<InstalledManifest>, n: Seq<char>, i: int)
    requires
        wf_installed(ims),
        0 <= i < ims.len(),
        ims[i].name@ == n,
    ensures
        im_has(ims, n),
        im_ix(ims, n) == i,
{
    assert(im_has(ims, n));
    let x = im_ix(ims, n);
    if x != i {
        if x < i {
            assert(ims[x].name@ != ims[i].name@);
        } else {
            assert(ims[i].name@ != ims[x].name@);
        }
    }
}

/// What one declared peer of `pkg` yields: a `missing` conflict when the
/// peer is not installed, a version conflict when the installed version does
/// not satisfy the declared spec, nothing otherwise.
pub open spec fn spec_peer_conflict(
    ims: Seq<InstalledManifest>,
    pkg: Seq<char>,
    peer: (Seq<char>, Seq<char>),
) -> Option<ConflictModel> {
    if !im_has(ims, peer.0) {
        Option::Some(
            ConflictModel {
                package: pkg,
                peer_dependency: peer.0,
                required_version: peer.1,
                installed_version: "missing"@,
            },
        )
    } else if !spec_is_version_compatible(im_version(ims, peer.0), peer.1) {
        Option::Some(
            ConflictModel {
                package: pkg,
                peer_dependency: peer.0,
                required_version: peer.1,
                installed_version: im_version(ims, peer.0),
            },
        )
    } else {
        Option::None
    }
}

/// Conflicts of one package's peer list, in declaration order.
pub open spec fn spec_conflicts_of_peers(
    ims: Seq<InstalledManifest>,
    pkg: Seq<char>,
    ps: Seq<(Seq<char>, Seq<char>)>,
) -> Seq<ConflictModel>
    decreases ps.len(),
{
    if ps.len() == 0 {
        Seq::empty()
    } else {
        spec_conflicts_of_peers(ims, pkg, ps.drop_last()) + (match spec_peer_conflict(
            ims,
            pkg,
            ps.last(),
        ) {
            Option::Some(c) => seq![c],
            Option::None => Seq::empty(),
        })
    }
}

/// Conflicts of the first `n` snapshot entries, in order.
pub open spec fn spec_conflicts_upto(ims: Seq<InstalledManifest>, n: int) -> Seq<ConflictModel>
    decreases n,
{
    if n <= 0 {
        Seq::empty()
    } else {
        spec_conflicts_upto(ims, n - 1) + spec_conflicts_of_peers(
            ims,
            ims[n - 1].name@,
            ims[n - 1].peer_dependencies.deep_view(),
        )
    }
}

/// Index of the snapshot entry with this name.
fn find_im(ims: &Vec<InstalledManifest>, n: &str) -> (r: Option<usize>)
    ensures
        match r {
            Some(i) => i < ims@.len() && ims@[i as int].name@ == n@,
            None => !im_has(ims@, n@),
        },
{
    let mut i: usize = 0;
    while i < ims.len()
        invariant
            i <= ims@.len(),
            forall|j: int| 0 <= j < i ==> (#[trigger] ims@[j].name@) != n@,
        decreases ims@.len() - i,
    {
        if string_eq(ims[i].name.as_str(), n) {
            return Some(i);
        }
        i = i + 1;
    }
    None
}

/// The read-only peer scan: walks every installed manifest and reports, for
/// each declared peer, whether it is missing from the tree or installed at an
/// incompatible version.
pub fn check_peer_dependency_conflicts(installed: &Vec<InstalledManifest>) -> (r: Vec<
    PeerConflict,
>)
    requires
        wf_installed(installed@),
    ensures
        r.deep_view() == spec_conflicts_upto(installed@, installed@.len() as int),
{
    let ghost ims = installed@;
    let mut out: Vec<PeerConflict> = Vec::new();
    proof {
        assert(out.deep_view() =~= spec_conflicts_upto(ims, 0));
    }
    let mut i: usize = 0;
    while i < installed.len()
        invariant
            wf_installed(ims),
            ims == installed@,
            i <= ims.len(),
            out.deep_view() == spec_conflicts_upto(ims, i as int),
        decreases ims.len() - i,
    {
        let peers = &installed[i].peer_dependencies;
        let ghost pkg = ims[i as int].name@;
        let ghost ps = ims[i as int].peer_dependencies.deep_view();
        let mut p: usize = 0;
        while p < peers.len()
            invariant
                wf_installed(ims),
                ims == installed@,
                i < ims.len(),
                peers == &installed@[i as int].peer_dependencies,
                pkg == ims[i as int].name@,
                ps == ims[i as int].peer_dependencies.deep_view(),
                p <= ps.len(),
                out.deep_view() == spec_conflicts_upto(ims, i as int) + spec_conflicts_of_peers(
                    ims,
                    pkg,
                    ps.take(p as int),
                ),
            decreases ps.len() - p,
        {
            let ghost cur = ps[p as int];
            proof {
                assert(ps.take(p + 1).drop_last() =~= ps.take(p as int));
                assert(ps.take(p + 1).last() == cur);
                assert(cur == (peers@[p as int].0@, peers@[p as int].1@));
            }
            let ghost pre_out = out.deep_view();
            let peer_name = peers[p].0.as_str();
            match find_im(installed, peer_name) {
                None => {
                    out.push(
                        PeerConflict {
                            package: installed[i].name.clone(),
                            peer_dependency: peers[p].0.clone(),
                            required_version: peers[p].1.clone(),
                            installed_version: String::from_str("missing"),
                        },
                    );
                    proof {
                        assert(out.deep_view() =~= pre_out.push(
                            spec_peer_conflict(ims, pkg, cur)->Some_0,
                        ));
                        assert(out.deep_view() =~= spec_conflicts_upto(ims, i as int)
                            + spec_conflicts_of_peers(ims, pkg, ps.take(p + 1)));
                    }
                },
                Some(x) => {
                    proof {
                        lemma_im_ix_unique(ims, cur.0, x as int);
                    }
                    if !is_version_compatible(installed[x].version.as_str(), peers[p].1.as_str()) {
                        out.push(
                            PeerConflict {
                                package: installed[i].name.clone(),
                                peer_dependency: peers[p].0.clone(),
                                required_version: peers[p].1.clone(),
                                installed_version: installed[x].version.clone(),
                            },
                        );
                        proof {
                            assert(out.deep_view() =~= pre_out.push(
                                spec_peer_conflict(ims, pkg, cur)->Some_0,
                            ));
                            assert(out.deep_view() =~= spec_conflicts_upto(ims, i as int)
                                + spec_conflicts_of_peers(ims, pkg, ps.take(p + 1)));
                        }
                    } else {
                        proof {
                            assert(out.deep_view() =~= spec_conflicts_upto(ims, i as int)
                                + spec_conflicts_of_peers(ims, pkg, ps.take(p + 1)));
                        }
                    }
                },
            }
            p = p + 1;
        }
        proof {
            assert(ps.take(ps.len() as int) =~= ps);
            assert(out.deep_view() =~= spec_conflicts_upto(ims, i + 1));
        }
        i = i + 1;
    }
    out
}

/// Whether a dependency table names this key.
fn pairs_contains_name(v: &Vec<(String, String)>, n: &str) -> (r: bool)
    ensures
        r == crate::text::has_pair(v@, n@),
{
    let mut i: usize = 0;
    while i < v.len()
        invariant
            i <= v@.len(),
            forall|j: int| 0 <= j < i ==> (#[trigger] v@[j].0@) != n@,
        decreases v@.len() - i,
    {
        if string_eq(v[i].0.as_str(), n) {
            assert(v@[i as int].0@ == n@);
            return true;
        }
        i = i + 1;
    }
    false
}

/// An optional model-level table names this key.
pub open spec fn model_table_has(d: Option<Seq<(Seq<char>, Seq<char>)>>, n: Seq<char>) -> bool {
    match d {
        Option::None => false,
        Option::Some(ds) => exists|i: int| 0 <= i < ds.len() && (#[trigger] ds[i].0) == n,
    }
}

/// The declared peers of a description, empty when it declares none.
pub open spec fn model_peers(info: crate::registry::InfoModel) -> Seq<(Seq<char>, Seq<char>)> {
    match info.peer_dependencies {
        Option::Some(ps) => ps,
        Option::None => Seq::empty(),
    }
}

/// The missing peers a package requires outright.
pub open spec fn spec_missing_required(
    info: crate::registry::InfoModel,
    installed: Seq<Seq<char>>,
) -> Seq<(Seq<char>, Seq<char>)> {
    model_peers(info).filter(
        |d: (Seq<char>, Seq<char>)|
            !installed.contains(d.0) && !model_table_has(info.optional_dependencies, d.0),
    )
}

/// The missing peers a package also lists as optional.
pub open spec fn spec_missing_optional(
    info: crate::registry::InfoModel,
    installed: Seq<Seq<char>>,
) -> Seq<(Seq<char>, Seq<char>)> {
    model_peers(info).filter(
        |d: (Seq<char>, Seq<char>)|
            !installed.contains(d.0) && model_table_has(info.optional_dependencies, d.0),
    )
}

/// Splits a package's declared peers that are missing from the tree into the
/// required ones and those it also lists as optional; the fix-peers path
/// schedules both for install, required ones first.
pub fn missing_peer_sets(info: &PackageInfo, installed: &Vec<String>) -> (r: (
    Vec<(String, String)>,
    Vec<(String, String)>,
))
    ensures
        r.0.deep_view() == spec_missing_required(info@, installed.deep_view()),
        r.1.deep_view() == spec_missing_optional(info@, installed.deep_view()),
{
    let ghost im = info@;
    let ghost inst = installed.deep_view();
    let ghost preq = |d: (Seq<char>, Seq<char>)|
        !inst.contains(d.0) && !model_table_has(im.optional_dependencies, d.0);
    let ghost popt = |d: (Seq<char>, Seq<char>)|
        !inst.contains(d.0) && model_table_has(im.optional_dependencies, d.0);
    let mut required: Vec<(String, String)> = Vec::new();
    let mut optional: Vec<(String, String)> = Vec::new();
    match &info.peer_dependencies {
        None => {
            proof {
                reveal(Seq::filter);
                assert(model_peers(im) =~= Seq::<(Seq<char>, Seq<char>)>::empty());
                assert(required.deep_view() =~= spec_missing_required(im, inst));
                assert(optional.deep_view() =~= spec_missing_optional(im, inst));
            }
        },
        Some(pd) => {
            let ghost pdm = pd.deep_view();
            proof {
                assert(model_peers(im) == pdm);
                reveal(Seq::filter);
                assert(pdm.take(0) =~= Seq::<(Seq<char>, Seq<char>)>::empty());
                assert(required.deep_view() =~= pdm.take(0).filter(preq));
                assert(optional.deep_view() =~= pdm.take(0).filter(popt));
            }
            let mut p: usize = 0;
            while p < pd.len()
                invariant
                    pd == &info.peer_dependencies->Some_0,
                    im == info@,
                    inst == installed.deep_view(),
                    pdm == pd.deep_view(),
                    p <= pdm.len(),
                    preq == (|d: (Seq<char>, Seq<char>)|
                        !inst.contains(d.0) && !model_table_has(im.optional_dependencies, d.0)),
                    popt == (|d: (Seq<char>, Seq<char>)|
                        !inst.contains(d.0) && model_table_has(im.optional_dependencies, d.0)),
                    required.deep_view() == pdm.take(p as int).filter(preq),
                    optional.deep_view() == pdm.take(p as int).filter(popt),
                decreases pdm.len() - p,
            {
                let ghost pre = pdm.take(p as int);
                let ghost cur = pdm[p as int];
                proof {
                    reveal(Seq::filter);
                    assert(pdm.take(p + 1) =~= pre.push(cur));
                    assert(pre.push(cur).drop_last() =~= pre);
                    assert(cur == (pd@[p as int].0@, pd@[p as int].1@));
                }
                let ghost rpre = required.deep_view();
                let ghost opre = optional.deep_view();
                if !crate::text::vec_contains_str(installed, pd[p].0.as_str()) {
                    let in_optional = match &info.optional_dependencies {
                        Some(od) => {
                            let hit = pairs_contains_name(od, pd[p].0.as_str());
                            proof {
                                assert(im.optional_dependencies matches Option::Some(ods)
                                    && ods == od.deep_view());
                                if hit {
                                    let x = choose|x: int|
                                        0 <= x < od@.len() && (#[trigger] od@[x].0@) == cur.0;
                                    assert(od.deep_view()[x].0 == cur.0);
                                    assert(model_table_has(im.optional_dependencies, cur.0));
                                } else {
                                    if model_table_has(im.optional_dependencies, cur.0) {
                                        let x = choose|x: int|
                                            0 <= x < od.deep_view().len() && (
                                            #[trigger] od.deep_view()[x].0) == cur.0;
                                        assert(od@[x].0@ == cur.0);
                                        assert(crate::text::has_pair(od@, cur.0));
                                    }
                                }
                            }
                            hit
                        },
                        None => false,
                    };
                    if in_optional {
                        optional.push((pd[p].0.clone(), pd[p].1.clone()));
                        proof {
                            assert(optional.deep_view() =~= opre.push(cur));
                            assert(pdm.take(p + 1).filter(popt) =~= opre.push(cur));
                            assert(pdm.take(p + 1).filter(preq) =~= rpre);
                        }
                    } else {
                        required.push((pd[p].0.clone(), pd[p].1.clone()));
                        proof {
                            assert(required.deep_view() =~= rpre.push(cur));
                            assert(pdm.take(p + 1).filter(preq) =~= rpre.push(cur));
                            assert(pdm.take(p + 1).filter(popt) =~= opre);
                        }
                    }
                } else {
                    proof {
                        assert(pdm.take(p + 1).filter(preq) =~= rpre);
                        assert(pdm.take(p + 1).filter(popt) =~= opre);
                    }
                }
                p = p + 1;
            }
            proof {
                assert(pdm.take(pdm.len() as int) =~= pdm);
            }
        },
    }
    (required, optional)
}

} // verus!
