use vstd::prelude::*;
use crate::errors::PkgError;
use crate::hashing::{sha1_hex, sha1_hex_of};
use crate::lockfile::{entry_of, has_entry, lock_consistent, LockedPackage, LockFile, wf_entries,
    wf_lock, without};
use crate::registry::{BinSpec, InfoModel, PackageInfo};
use crate::resolver::{is_circular_stub, ResolvedPackage};
use crate::text::{string_eq, vec_contains_str};

verus! {

/// One materialization the installer owes: fetch, verify and unpack this
/// description, record `parent` as its requirer in the lock, and add it to
/// the project manifest when the user asked for it by name.
pub struct InstallStep {
    pub info: PackageInfo,
    pub parent: String,
    pub update_manifest: bool,
}

/// Character-level contents of an `InstallStep`.
pub ghost struct StepModel {
    pub info: InfoModel,
    pub parent: Seq<char>,
    pub update_manifest: bool,
}

impl View for InstallStep {
    type V = StepModel;

    open spec fn view(&self) -> StepModel {
        StepModel { info: self.info@, parent: self.parent@, update_manifest: self.update_manifest }
    }
}

impl DeepView for InstallStep {
    type V = StepModel;

    open spec fn deep_view(&self) -> StepModel {
        self.view()
    }
}

/// The plan one tree node contributes, with the names already materialized
/// threaded through: a circular stub or an already-seen name contributes
/// nothing; anything else is planned after its dependencies, under its
/// parent's name.
pub open spec fn spec_plan_node(
    t: ResolvedPackage,
    seen: Seq<Seq<char>>,
    parent: Seq<char>,
    root: bool,
) -> (Seq<StepModel>, Seq<Seq<char>>)
    decreases t, 0int,
{
    if is_circular_stub(t) || seen.contains(t.info@.name) {
        (Seq::empty(), seen)
    } else {
        let inner = spec_plan_list(t.dependencies@, seen.push(t.info@.name), t.info@.name);
        (
            inner.0.push(StepModel { info: t.info@, parent, update_manifest: root }),
            inner.1,
        )
    }
}

/// `spec_plan_node` folded over sibling dependencies.
pub open spec fn spec_plan_list(
    ts: Seq<ResolvedPackage>,
    seen: Seq<Seq<char>>,
    parent: Seq<char>,
) -> (Seq<StepModel>, Seq<Seq<char>>)
    decreases ts, ts.len(),
{
    if ts.len() == 0 {
        (Seq::empty(), seen)
    } else {
        let head = spec_plan_node(ts[0], seen, parent, false);
        let rest = spec_plan_list(ts.skip(1), head.1, parent);
        (head.0 + rest.0, rest.1)
    }
}

/// The plan for the requested roots: each is planned under the literal
/// requirer `root`, and only roots can touch the project manifest.
pub open spec fn spec_plan_roots(
    ts: Seq<ResolvedPackage>,
    seen: Seq<Seq<char>>,
    update_manifest: bool,
) -> (Seq<StepModel>, Seq<Seq<char>>)
    decreases ts.len(),
{
    if ts.len() == 0 {
        (Seq::empty(), seen)
    } else {
        let head = spec_plan_node(ts[0], seen, "root"@, update_manifest);
        let rest = spec_plan_roots(ts.skip(1), head.1, update_manifest);
        (head.0 + rest.0, rest.1)
    }
}

/// Idempotence of planning: when every requested root is already
/// materialized, the plan is empty — a re-run fetches nothing and writes
/// nothing.
pub proof fn lemma_plan_idempotent(
    ts: Seq<ResolvedPackage>,
    seen: Seq<Seq<char>>,
    update_manifest: bool,
)
    requires
        forall|j: int| 0 <= j < ts.len() ==> seen.contains((#[trigger] ts[j]).info@.name),
    ensures
        spec_plan_roots(ts, seen, update_manifest).0 == Seq::<StepModel>::empty(),
        spec_plan_roots(ts, seen, update_manifest).1 == seen,
    decreases ts.len(),
{
    if ts.len() > 0 {
        assert(seen.contains(ts[0].info@.name));
        assert forall|j: int| 0 <= j < ts.skip(1).len() implies seen.contains(
            (#[trigger] ts.skip(1)[j]).info@.name,
        ) by {
            assert(ts.skip(1)[j] == ts[j + 1]);
        }
        lemma_plan_idempotent(ts.skip(1), seen, update_manifest);
        assert(spec_plan_roots(ts, seen, update_manifest).0 =~= Seq::<StepModel>::empty());
    }
}

/// The bookkeeping behind cycle safety, node form: planning marks exactly
/// the planned names as seen, plans nothing already seen, and plans no name
/// twice.
pub proof fn lemma_plan_once_node(
    t: ResolvedPackage,
    seen: Seq<Seq<char>>,
    parent: Seq<char>,
    root: bool,
)
    ensures
        ({
            let r = spec_plan_node(t, seen, parent, root);
            &&& r.1.len() == seen.len() + r.0.len()
            &&& forall|x: Seq<char>|
                #[trigger] r.1.contains(x) <==> (seen.contains(x) || (exists|i: int|
                    0 <= i < r.0.len() && (#[trigger] r.0[i]).info.name == x))
            &&& forall|i: int| 0 <= i < r.0.len() ==> !seen.contains((#[trigger] r.0[i]).info.name)
            &&& forall|i: int, j: int|
                0 <= i < j < r.0.len() ==> (#[trigger] r.0[i]).info.name != (
                #[trigger] r.0[j]).info.name
        }),
    decreases t, 0int,
{
    if !(is_circular_stub(t) || seen.contains(t.info@.name)) {
        let seen1 = seen.push(t.info@.name);
        let inner = spec_plan_list(t.dependencies@, seen1, t.info@.name);
        let r = spec_plan_node(t, seen, parent, root);
        lemma_plan_once_list(t.dependencies@, seen1, t.info@.name);
        assert(seen1.contains(t.info@.name)) by {
            assert(seen1[seen.len() as int] == t.info@.name);
        }
        assert forall|x: Seq<char>| #[trigger]
            seen.contains(x) implies seen1.contains(x) by {
            let k = choose|k: int| 0 <= k < seen.len() && seen[k] == x;
            assert(seen1[k] == x);
        }
        assert forall|x: Seq<char>| #[trigger]
            r.1.contains(x) <==> (seen.contains(x) || (exists|i: int|
                0 <= i < r.0.len() && (#[trigger] r.0[i]).info.name == x)) by {
            if r.1.contains(x) {
                if seen1.contains(x) && !seen.contains(x) {
                    if x != t.info@.name {
                        let k = choose|k: int| 0 <= k < seen1.len() && seen1[k] == x;
                        assert(seen1[k] == seen[k]);
                    } else {
                        assert(r.0[r.0.len() - 1].info.name == x);
                    }
                } else if !seen1.contains(x) {
                    let i = choose|i: int|
                        0 <= i < inner.0.len() && (#[trigger] inner.0[i]).info.name == x;
                    assert(r.0[i].info.name == x);
                }
            }
            if !r.1.contains(x) && (exists|i: int|
                0 <= i < r.0.len() && (#[trigger] r.0[i]).info.name == x) {
                let i = choose|i: int| 0 <= i < r.0.len() && (#[trigger] r.0[i]).info.name == x;
                if i < inner.0.len() {
                    assert(inner.0[i].info.name == x);
                }
            }
            if !r.1.contains(x) && seen.contains(x) {
                assert(seen1.contains(x));
            }
        }
        assert forall|i: int| 0 <= i < r.0.len() implies !seen.contains(
            (#[trigger] r.0[i]).info.name,
        ) by {
            if i < inner.0.len() {
                assert(r.0[i] == inner.0[i]);
                assert(!seen1.contains(inner.0[i].info.name));
            }
        }
        assert forall|i: int, j: int| 0 <= i < j < r.0.len() implies (
        #[trigger] r.0[i]).info.name != (#[trigger] r.0[j]).info.name by {
            if j < inner.0.len() {
                assert(r.0[i] == inner.0[i] && r.0[j] == inner.0[j]);
            } else {
                assert(r.0[j].info.name == t.info@.name);
                assert(r.0[i] == inner.0[i]);
                assert(!seen1.contains(inner.0[i].info.name));
            }
        }
    }
}

/// List form of `lemma_plan_once_node`.
pub proof fn lemma_plan_once_list(ts: Seq<ResolvedPackage>, seen: Seq<Seq<char>>, parent: Seq<char>)
    ensures
        ({
            let r = spec_plan_list(ts, seen, parent);
            &&& r.1.len() == seen.len() + r.0.len()
            &&& forall|x: Seq<char>|
                #[trigger] r.1.contains(x) <==> (seen.contains(x) || (exists|i: int|
                    0 <= i < r.0.len() && (#[trigger] r.0[i]).info.name == x))
            &&& forall|i: int| 0 <= i < r.0.len() ==> !seen.contains((#[trigger] r.0[i]).info.name)
            &&& forall|i: int, j: int|
                0 <= i < j < r.0.len() ==> (#[trigger] r.0[i]).info.name != (
                #[trigger] r.0[j]).info.name
        }),
    decreases ts, ts.len(),
{
    if ts.len() > 0 {
        let head = spec_plan_node(ts[0], seen, parent, false);
        let rest = spec_plan_list(ts.skip(1), head.1, parent);
        let r = spec_plan_list(ts, seen, parent);
        lemma_plan_once_node(ts[0], seen, parent, false);
        lemma_plan_once_list(ts.skip(1), head.1, parent);
        assert forall|x: Seq<char>| #[trigger]
            r.1.contains(x) <==> (seen.contains(x) || (exists|i: int|
                0 <= i < r.0.len() && (#[trigger] r.0[i]).info.name == x)) by {
            if r.1.contains(x) {
                if head.1.contains(x) {
                    if !seen.contains(x) {
                        let i = choose|i: int|
                            0 <= i < head.0.len() && (#[trigger] head.0[i]).info.name == x;
                        assert(r.0[i].info.name == x);
                    }
                } else {
                    let i = choose|i: int|
                        0 <= i < rest.0.len() && (#[trigger] rest.0[i]).info.name == x;
                    assert(r.0[head.0.len() + i].info.name == x);
                }
            }
            if !r.1.contains(x) && (exists|i: int|
                0 <= i < r.0.len() && (#[trigger] r.0[i]).info.name == x) {
                let i = choose|i: int| 0 <= i < r.0.len() && (#[trigger] r.0[i]).info.name == x;
                if i < head.0.len() {
                    assert(head.0[i].info.name == x);
                    assert(head.1.contains(x));
                } else {
                    assert(rest.0[i - head.0.len()].info.name == x);
                }
            }
            if !r.1.contains(x) && seen.contains(x) {
                assert(head.1.contains(x));
            }
        }
        assert forall|i: int| 0 <= i < r.0.len() implies !seen.contains(
            (#[trigger] r.0[i]).info.name,
        ) by {
            if i < head.0.len() {
                assert(r.0[i] == head.0[i]);
            } else {
                assert(r.0[i] == rest.0[i - head.0.len()]);
                assert(!head.1.contains(rest.0[i - head.0.len()].info.name));
                if seen.contains(r.0[i].info.name) {
                    assert(head.1.contains(r.0[i].info.name));
                }
            }
        }
        assert forall|i: int, j: int| 0 <= i < j < r.0.len() implies (
        #[trigger] r.0[i]).info.name != (#[trigger] r.0[j]).info.name by {
            if j < head.0.len() {
                assert(r.0[i] == head.0[i] && r.0[j] == head.0[j]);
            } else if i >= head.0.len() {
                assert(r.0[i] == rest.0[i - head.0.len()] && r.0[j] == rest.0[j - head.0.len()]);
            } else {
                assert(r.0[i] == head.0[i] && r.0[j] == rest.0[j - head.0.len()]);
                assert(head.1.contains(head.0[i].info.name));
                assert(!head.1.contains(rest.0[j - head.0.len()].info.name));
            }
        }
    }
}

/// Cycle safety of planning: however tangled the resolved graph, the install
/// plan names every package at most once and never one already present, so
/// the work is bounded by the number of distinct names.
pub proof fn lemma_plan_once_roots(
    ts: Seq<ResolvedPackage>,
    seen: Seq<Seq<char>>,
    update_manifest: bool,
)
    ensures
        ({
            let r = spec_plan_roots(ts, seen, update_manifest);
            &&& r.1.len() == seen.len() + r.0.len()
            &&& forall|i: int| 0 <= i < r.0.len() ==> !seen.contains((#[trigger] r.0[i]).info.name)
            &&& forall|i: int, j: int|
                0 <= i < j < r.0.len() ==> (#[trigger] r.0[i]).info.name != (
                #[trigger] r.0[j]).info.name
        }),
    decreases ts.len(),
{
    if ts.len() > 0 {
        let head = spec_plan_node(ts[0], seen, "root"@, update_manifest);
        let rest = spec_plan_roots(ts.skip(1), head.1, update_manifest);
        let r = spec_plan_roots(ts, seen, update_manifest);
        lemma_plan_once_node(ts[0], seen, "root"@, update_manifest);
        lemma_plan_once_roots(ts.skip(1), head.1, update_manifest);
        assert forall|i: int| 0 <= i < r.0.len() implies !seen.contains(
            (#[trigger] r.0[i]).info.name,
        ) by {
            if i < head.0.len() {
                assert(r.0[i] == head.0[i]);
            } else {
                assert(r.0[i] == rest.0[i - head.0.len()]);
                if seen.contains(r.0[i].info.name) {
                    assert(head.1.contains(r.0[i].info.name));
                }
            }
        }
        assert forall|i: int, j: int| 0 <= i < j < r.0.len() implies (
        #[trigger] r.0[i]).info.name != (#[trigger] r.0[j]).info.name by {
            if j < head.0.len() {
                assert(r.0[i] == head.0[i] && r.0[j] == head.0[j]);
            } else if i >= head.0.len() {
                assert(r.0[i] == rest.0[i - head.0.len()] && r.0[j] == rest.0[j - head.0.len()]);
            } else {
                assert(r.0[i] == head.0[i] && r.0[j] == rest.0[j - head.0.len()]);
                assert(head.1.contains(head.0[i].info.name));
                assert(!head.1.contains(rest.0[j - head.0.len()].info.name));
            }
        }
    }
}

/// Every step in a node's plan names as its requirer either the node's
/// parent or another planned package, so applying the plan to the lock
/// leaves no dangling requirer.
pub proof fn lemma_plan_parents_node(
    t: ResolvedPackage,
    seen: Seq<Seq<char>>,
    parent: Seq<char>,
    root: bool,
)
    ensures
        ({
            let steps = spec_plan_node(t, seen, parent, root).0;
            forall|i: int|
                0 <= i < steps.len() ==> (#[trigger] steps[i]).parent == parent || (exists|j: int|
                    0 <= j < steps.len() && (#[trigger] steps[j]).info.name == steps[i].parent)
        }),
    decreases t, 0int,
{
    if !(is_circular_stub(t) || seen.contains(t.info@.name)) {
        let inner = spec_plan_list(t.dependencies@, seen.push(t.info@.name), t.info@.name);
        let steps = spec_plan_node(t, seen, parent, root).0;
        lemma_plan_parents_list(t.dependencies@, seen.push(t.info@.name), t.info@.name);
        assert forall|i: int| 0 <= i < steps.len() implies (#[trigger] steps[i]).parent == parent
            || (exists|j: int|
            0 <= j < steps.len() && (#[trigger] steps[j]).info.name == steps[i].parent) by {
            if i < inner.0.len() {
                assert(steps[i] == inner.0[i]);
                if inner.0[i].parent == t.info@.name {
                    assert(steps[steps.len() - 1].info.name == steps[i].parent);
                } else {
                    let j = choose|j: int|
                        0 <= j < inner.0.len() && (#[trigger] inner.0[j]).info.name
                            == inner.0[i].parent;
                    assert(steps[j].info.name == steps[i].parent);
                }
            }
        }
    }
}

/// List form of `lemma_plan_parents_node`.
pub proof fn lemma_plan_parents_list(ts: Seq<ResolvedPackage>, seen: Seq<Seq<char>>, parent: Seq<char>)
    ensures
        ({
            let steps = spec_plan_list(ts, seen, parent).0;
            forall|i: int|
                0 <= i < steps.len() ==> (#[trigger] steps[i]).parent == parent || (exists|j: int|
                    0 <= j < steps.len() && (#[trigger] steps[j]).info.name == steps[i].parent)
        }),
    decreases ts, ts.len(),
{
    if ts.len() > 0 {
        let head = spec_plan_node(ts[0], seen, parent, false);
        let rest = spec_plan_list(ts.skip(1), head.1, parent);
        let steps = spec_plan_list(ts, seen, parent).0;
        lemma_plan_parents_node(ts[0], seen, parent, false);
        lemma_plan_parents_list(ts.skip(1), head.1, parent);
        assert forall|i: int| 0 <= i < steps.len() implies (#[trigger] steps[i]).parent == parent
            || (exists|j: int|
            0 <= j < steps.len() && (#[trigger] steps[j]).info.name == steps[i].parent) by {
            if i < head.0.len() {
                assert(steps[i] == head.0[i]);
                if head.0[i].parent != parent {
                    let j = choose|j: int|
                        0 <= j < head.0.len() && (#[trigger] head.0[j]).info.name
                            == head.0[i].parent;
                    assert(steps[j].info.name == steps[i].parent);
                }
            } else {
                let k = i - head.0.len();
                assert(steps[i] == rest.0[k]);
                if rest.0[k].parent != parent {
                    let j = choose|j: int|
                        0 <= j < rest.0.len() && (#[trigger] rest.0[j]).info.name
                            == rest.0[k].parent;
                    assert(steps[head.0.len() + j].info.name == steps[i].parent);
                }
            }
        }
    }
}

/// Root form: every requirer named by the plan is the literal `root` or a
/// planned package name.
pub proof fn lemma_plan_parents_roots(
    ts: Seq<ResolvedPackage>,
    seen: Seq<Seq<char>>,
    update_manifest: bool,
)
    ensures
        ({
            let steps = spec_plan_roots(ts, seen, update_manifest).0;
            forall|i: int|
                0 <= i < steps.len() ==> (#[trigger] steps[i]).parent == "root"@ || (exists|j: int|
                    0 <= j < steps.len() && (#[trigger] steps[j]).info.name == steps[i].parent)
        }),
    decreases ts.len(),
{
    if ts.len() > 0 {
        let head = spec_plan_node(ts[0], seen, "root"@, update_manifest);
        let rest = spec_plan_roots(ts.skip(1), head.1, update_manifest);
        let steps = spec_plan_roots(ts, seen, update_manifest).0;
        lemma_plan_parents_node(ts[0], seen, "root"@, update_manifest);
        lemma_plan_parents_roots(ts.skip(1), head.1, update_manifest);
        assert forall|i: int| 0 <= i < steps.len() implies (#[trigger] steps[i]).parent == "root"@
            || (exists|j: int|
            0 <= j < steps.len() && (#[trigger] steps[j]).info.name == steps[i].parent) by {
            if i < head.0.len() {
                assert(steps[i] == head.0[i]);
                if head.0[i].parent != "root"@ {
                    let j = choose|j: int|
                        0 <= j < head.0.len() && (#[trigger] head.0[j]).info.name
                            == head.0[i].parent;
                    assert(steps[j].info.name == steps[i].parent);
                }
            } else {
                let k = i - head.0.len();
                assert(steps[i] == rest.0[k]);
                if rest.0[k].parent != "root"@ {
                    let j = choose|j: int|
                        0 <= j < rest.0.len() && (#[trigger] rest.0[j]).info.name
                            == rest.0[k].parent;
                    assert(steps[head.0.len() + j].info.name == steps[i].parent);
                }
            }
        }
    }
}

/// Walks one node, appending its plan and recording newly planned names.
fn plan_visit(t: &ResolvedPackage, seen: &mut Vec<String>, parent: &str, root: bool, out: &mut Vec<
    InstallStep,
>)
    ensures
        ({
            let r = spec_plan_node(*t, old(seen).deep_view(), parent@, root);
            final(seen).deep_view() == r.1 && final(out).deep_view() == old(out).deep_view() + r.0
        }),
    decreases *t,
{
    let is_stub = string_eq(t.name.as_str(), "circular") && t.dependencies.len() == 0;
    if is_stub || vec_contains_str(seen, t.info.name.as_str()) {
        proof {
            assert(final(out).deep_view() =~= old(out).deep_view() + spec_plan_node(
                *t,
                old(seen).deep_view(),
                parent@,
                root,
            ).0);
        }
        return ;
    }
    let ghost s0 = seen.deep_view();
    let ghost o0 = out.deep_view();
    seen.push(t.info.name.clone());
    proof {
        assert(seen.deep_view() =~= s0.push(t.info@.name));
        assert(t.dependencies@.take(0) =~= Seq::<ResolvedPackage>::empty());
    }
    let mut c: usize = 0;
    while c < t.dependencies.len()
        invariant
            c <= t.dependencies@.len(),
            s0 == old(seen).deep_view(),
            o0 == old(out).deep_view(),
            !is_circular_stub(*t),
            !s0.contains(t.info@.name),
            ({
                let r = spec_plan_list(
                    t.dependencies@.take(c as int),
                    s0.push(t.info@.name),
                    t.info@.name,
                );
                seen.deep_view() == r.1 && out.deep_view() == o0 + r.0
            }),
        decreases t.dependencies@.len() - c,
    {
        proof {
            lemma_plan_list_push(
                t.dependencies@.take(c as int),
                t.dependencies@[c as int],
                s0.push(t.info@.name),
                t.info@.name,
            );
            assert(t.dependencies@.take(c + 1) =~= t.dependencies@.take(c as int).push(
                t.dependencies@[c as int],
            ));
        }
        plan_visit(&t.dependencies[c], seen, t.info.name.as_str(), false, out);
        c = c + 1;
    }
    let ghost inner = spec_plan_list(t.dependencies@, s0.push(t.info@.name), t.info@.name);
    proof {
        assert(t.dependencies@.take(t.dependencies@.len() as int) =~= t.dependencies@);
        assert(out.deep_view() == o0 + inner.0);
        assert(seen.deep_view() == inner.1);
    }
    let step = InstallStep {
        info: t.info.duplicate(),
        parent: parent.to_owned(),
        update_manifest: root,
    };
    let ghost stepm = step@;
    out.push(step);
    proof {
        let r = spec_plan_node(*t, s0, parent@, root);
        assert(stepm == StepModel { info: t.info@, parent: parent@, update_manifest: root });
        assert(r.0 == inner.0.push(StepModel { info: t.info@, parent: parent@, update_manifest: root }));
        assert(out.deep_view() =~= (o0 + inner.0).push(stepm));
        assert((o0 + inner.0).push(stepm) =~= o0 + inner.0.push(stepm));
        assert(out.deep_view() == o0 + r.0);
    }
}

/// Appending one tree to a sibling list plans the list first, then the tree.
pub proof fn lemma_plan_list_push(
    ts: Seq<ResolvedPackage>,
    t: ResolvedPackage,
    seen: Seq<Seq<char>>,
    parent: Seq<char>,
)
    ensures
        spec_plan_list(ts.push(t), seen, parent) == ({
            let pre = spec_plan_list(ts, seen, parent);
            let node = spec_plan_node(t, pre.1, parent, false);
            (pre.0 + node.0, node.1)
        }),
    decreases ts.len(),
{
    reveal_with_fuel(spec_plan_list, 3);
    if ts.len() == 0 {
        assert(ts.push(t)[0] == t);
        assert(ts.push(t).skip(1) =~= Seq::<ResolvedPackage>::empty());
        let pre = spec_plan_list(ts, seen, parent);
        let node = spec_plan_node(t, pre.1, parent, false);
        assert(spec_plan_list(ts.push(t), seen, parent).0 =~= pre.0 + node.0);
    } else {
        assert(ts.push(t)[0] == ts[0]);
        assert(ts.push(t).skip(1) =~= ts.skip(1).push(t));
        let head = spec_plan_node(ts[0], seen, parent, false);
        lemma_plan_list_push(ts.skip(1), t, head.1, parent);
        let pre = spec_plan_list(ts, seen, parent);
        let node = spec_plan_node(t, pre.1, parent, false);
        assert(spec_plan_list(ts.push(t), seen, parent).0 =~= pre.0 + node.0);
    }
}

/// Root form of `lemma_plan_list_push`.
pub proof fn lemma_plan_roots_push(
    ts: Seq<ResolvedPackage>,
    t: ResolvedPackage,
    seen: Seq<Seq<char>>,
    update_manifest: bool,
)
    ensures
        spec_plan_roots(ts.push(t), seen, update_manifest) == ({
            let pre = spec_plan_roots(ts, seen, update_manifest);
            let node = spec_plan_node(t, pre.1, "root"@, update_manifest);
            (pre.0 + node.0, node.1)
        }),
    decreases ts.len(),
{
    reveal_with_fuel(spec_plan_roots, 3);
    if ts.len() == 0 {
        assert(ts.push(t)[0] == t);
        assert(ts.push(t).skip(1) =~= Seq::<ResolvedPackage>::empty());
        let pre = spec_plan_roots(ts, seen, update_manifest);
        let node = spec_plan_node(t, pre.1, "root"@, update_manifest);
        assert(spec_plan_roots(ts.push(t), seen, update_manifest).0 =~= pre.0 + node.0);
    } else {
        assert(ts.push(t)[0] == ts[0]);
        assert(ts.push(t).skip(1) =~= ts.skip(1).push(t));
        let head = spec_plan_node(ts[0], seen, "root"@, update_manifest);
        lemma_plan_roots_push(ts.skip(1), t, head.1, update_manifest);
        let pre = spec_plan_roots(ts, seen, update_manifest);
        let node = spec_plan_node(t, pre.1, "root"@, update_manifest);
        assert(spec_plan_roots(ts.push(t), seen, update_manifest).0 =~= pre.0 + node.0);
    }
}

/// Computes the install plan for the resolved roots against a snapshot of the
/// names already present under `node_modules`: a post-order list in which
/// dependencies precede their parent, each name appears at most once, and
/// already-present or circular nodes contribute nothing.
pub fn plan_install(
    roots: &Vec<ResolvedPackage>,
    installed: &Vec<String>,
    update_manifest: bool,
) -> (r: Vec<InstallStep>)
    ensures
        r.deep_view() == spec_plan_roots(roots@, installed.deep_view(), update_manifest).0,
{
    let mut seen: Vec<String> = crate::text::clone_string_vec(installed);
    let mut out: Vec<InstallStep> = Vec::new();
    proof {
        assert(roots@.take(0) =~= Seq::<ResolvedPackage>::empty());
        assert(out.deep_view() =~= Seq::<StepModel>::empty());
    }
    let mut i: usize = 0;
    while i < roots.len()
        invariant
            i <= roots@.len(),
            ({
                let r = spec_plan_roots(
                    roots@.take(i as int),
                    installed.deep_view(),
                    update_manifest,
                );
                seen.deep_view() == r.1 && out.deep_view() == r.0
            }),
        decreases roots@.len() - i,
    {
        proof {
            lemma_plan_roots_push(
                roots@.take(i as int),
                roots@[i as int],
                installed.deep_view(),
                update_manifest,
            );
            assert(roots@.take(i + 1) =~= roots@.take(i as int).push(roots@[i as int]));
        }
        plan_visit(&roots[i], &mut seen, "root", update_manifest, &mut out);
        proof {
            assert(Seq::<StepModel>::empty() + out.deep_view() =~= out.deep_view());
        }
        i = i + 1;
    }
    proof {
        assert(roots@.take(roots@.len() as int) =~= roots@);
    }
    out
}

/// Splits requested specs into those whose package directory already exists
/// and those still to install, preserving order.
pub fn check_packages_already_installed(
    package_specs: &Vec<(String, String)>,
    installed: &Vec<String>,
) -> (r: (Vec<String>, Vec<(String, String)>))
    ensures
        r.0.deep_view() == package_specs.deep_view().filter(
            |p: (Seq<char>, Seq<char>)| installed.deep_view().contains(p.0),
        ).map_values(|p: (Seq<char>, Seq<char>)| p.0),
        r.1.deep_view() == package_specs.deep_view().filter(
            |p: (Seq<char>, Seq<char>)| !installed.deep_view().contains(p.0),
        ),
{
    let ghost specs = package_specs.deep_view();
    let ghost pres = |p: (Seq<char>, Seq<char>)| installed.deep_view().contains(p.0);
    let ghost pabs = |p: (Seq<char>, Seq<char>)| !installed.deep_view().contains(p.0);
    let mut already: Vec<String> = Vec::new();
    let mut to_install: Vec<(String, String)> = Vec::new();
    proof {
        reveal(Seq::filter);
        assert(specs.take(0) =~= Seq::<(Seq<char>, Seq<char>)>::empty());
        assert(already.deep_view() =~= specs.take(0).filter(pres).map_values(
            |p: (Seq<char>, Seq<char>)| p.0,
        ));
        assert(to_install.deep_view() =~= specs.take(0).filter(pabs));
    }
    let mut i: usize = 0;
    while i < package_specs.len()
        invariant
            i <= specs.len(),
            specs == package_specs.deep_view(),
            pres == (|p: (Seq<char>, Seq<char>)| installed.deep_view().contains(p.0)),
            pabs == (|p: (Seq<char>, Seq<char>)| !installed.deep_view().contains(p.0)),
            already.deep_view() == specs.take(i as int).filter(pres).map_values(
                |p: (Seq<char>, Seq<char>)| p.0,
            ),
            to_install.deep_view() == specs.take(i as int).filter(pabs),
        decreases specs.len() - i,
    {
        let ghost pre = specs.take(i as int);
        let ghost cur = specs[i as int];
        proof {
            reveal(Seq::filter);
            assert(specs.take(i + 1) =~= pre.push(cur));
            assert(pre.push(cur).drop_last() =~= pre);
            assert(cur == (package_specs@[i as int].0@, package_specs@[i as int].1@));
        }
        let ghost apre = already.deep_view();
        let ghost tpre = to_install.deep_view();
        if vec_contains_str(installed, package_specs[i].0.as_str()) {
            already.push(package_specs[i].0.clone());
            proof {
                assert(already.deep_view() =~= apre.push(cur.0));
                assert(specs.take(i + 1).filter(pres) =~= pre.filter(pres).push(cur));
                assert(specs.take(i + 1).filter(pres).map_values(
                    |p: (Seq<char>, Seq<char>)| p.0,
                ) =~= apre.push(cur.0));
                assert(specs.take(i + 1).filter(pabs) =~= tpre);
            }
        } else {
            to_install.push((package_specs[i].0.clone(), package_specs[i].1.clone()));
            proof {
                assert(to_install.deep_view() =~= tpre.push(cur));
                assert(specs.take(i + 1).filter(pabs) =~= tpre.push(cur));
                assert(specs.take(i + 1).filter(pres) =~= pre.filter(pres));
                assert(specs.take(i + 1).filter(pres).map_values(
                    |p: (Seq<char>, Seq<char>)| p.0,
                ) =~= apre);
            }
        }
        i = i + 1;
    }
    proof {
        assert(specs.take(specs.len() as int) =~= specs);
    }
    (already, to_install)
}

/// Some step of the plan installs this name.
pub open spec fn plan_has_name(plan: Seq<InstallStep>, n: Seq<char>) -> bool {
    exists|j: int| 0 <= j < plan.len() && (#[trigger] plan[j]@).info.name == n
}

/// What applying a plan leaves in the lock for one step: a fresh entry
/// carries the step's version, URL, digest and dependency map, with exactly
/// the step's parent as requester; an entry that already existed keeps its
/// recorded fields, and its requester set at most gains the step's parent.
#[verifier::opaque]
pub open spec fn step_entry_ok(
    pre: Seq<LockedPackage>,
    post: Seq<LockedPackage>,
    st: StepModel,
) -> bool {
    &&& has_entry(post, st.info.name)
    &&& ({
        let e = entry_of(post, st.info.name);
        &&& e.required_by.deep_view().contains(st.parent)
        &&& (if has_entry(pre, st.info.name) {
            let oe = entry_of(pre, st.info.name);
            &&& e.version == oe.version
            &&& e.resolved == oe.resolved
            &&& e.integrity == oe.integrity
            &&& e.dependencies == oe.dependencies
            &&& forall|b: int|
                0 <= b < e.required_by@.len() ==> (oe.required_by.deep_view().contains(
                    (#[trigger] e.required_by@[b])@,
                ) || e.required_by@[b]@ == st.parent)
        } else {
            &&& e.version@ == st.info.version
            &&& e.resolved@ == st.info.dist.tarball
            &&& e.integrity@ == st.info.dist.shasum
            &&& e.dependencies.deep_view() == st.info.dependencies
            &&& e.required_by.deep_view() == seq![st.parent]
        })
    })
}

/// A step's entry shape only depends on its own entry: locks agreeing on it
/// agree on the shape.
proof fn lemma_step_entry_stable(
    pre0: Seq<LockedPackage>,
    a: Seq<LockedPackage>,
    b: Seq<LockedPackage>,
    st: StepModel,
)
    requires
        step_entry_ok(pre0, a, st),
        has_entry(b, st.info.name),
        entry_of(b, st.info.name) == entry_of(a, st.info.name),
    ensures
        step_entry_ok(pre0, b, st),
{
    reveal(step_entry_ok);
}

/// Applies an install plan to the lock, one entry per step, with the step's
/// parent as the requirer. A fresh entry records the step's description; an
/// existing one only gains the requester. Lock consistency is preserved
/// because every requirer a step names is the literal `root` or another
/// planned package; an empty plan changes nothing.
#[verifier::rlimit(100)]
pub fn apply_install_to_lock(lock: &mut LockFile, plan: &Vec<InstallStep>)
    requires
        wf_lock(*old(lock)),
        lock_consistent(*old(lock)),
        forall|i: int|
            0 <= i < plan@.len() ==> (#[trigger] plan@[i]@).parent == "root"@ || (exists|j: int|
                0 <= j < plan@.len() && (#[trigger] plan@[j]@).info.name == plan@[i]@.parent),
        forall|a: int, b: int|
            0 <= a < b < plan@.len() ==> (#[trigger] plan@[a]@).info.name != (
            #[trigger] plan@[b]@).info.name,
    ensures
        wf_lock(*final(lock)),
        lock_consistent(*final(lock)),
        forall|k: Seq<char>|
            #[trigger] has_entry(final(lock).packages@, k) <==> (has_entry(
                old(lock).packages@,
                k,
            ) || (exists|j: int| 0 <= j < plan@.len() && (#[trigger] plan@[j]@).info.name == k)),
        plan@.len() == 0 ==> *final(lock) == *old(lock),
        forall|k: int|
            0 <= k < old(lock).packages@.len() && !plan_has_name(
                plan@,
                (#[trigger] old(lock).packages@[k]).name@,
            ) ==> final(lock).packages@[k] == old(lock).packages@[k],
        forall|j: int|
            0 <= j < plan@.len() ==> step_entry_ok(
                old(lock).packages@,
                final(lock).packages@,
                (#[trigger] plan@[j])@,
            ),
{
    let ghost old_keys_holder = old(lock).packages@;
    proof {
        assert forall|e: int, b: int|
            0 <= e < lock.packages@.len() && 0 <= b
                < lock.packages@[e].required_by@.len() implies ({
            let rb = #[trigger] lock.packages@[e].required_by@[b]@;
            rb == "root"@ || has_entry(old_keys_holder, rb) || (exists|j: int|
                0 <= j < plan@.len() && (#[trigger] plan@[j]@).info.name == rb)
        }) by {
            let rbs = lock.packages@[e].required_by.deep_view();
            assert(rbs[b] == lock.packages@[e].required_by@[b]@);
        }
    }
    let mut i: usize = 0;
    while i < plan.len()
        invariant
            i <= plan@.len(),
            wf_lock(*lock),
            i == 0 ==> *lock == *old(lock),
            old_keys_holder.len() <= lock.packages@.len(),
            forall|p: int|
                0 <= p < plan@.len() ==> (#[trigger] plan@[p]@).parent == "root"@ || (exists|
                    j: int,
                |
                    0 <= j < plan@.len() && (#[trigger] plan@[j]@).info.name == plan@[p]@.parent),
            // keys grow: everything old stays, the processed prefix is in
            forall|k: Seq<char>|
                #[trigger] has_entry(lock.packages@, k) <==> (has_entry(old_keys_holder, k) || (
                exists|j: int| 0 <= j < i && (#[trigger] plan@[j]@).info.name == k)),
            // every requester anywhere is root, an old key, or a plan name
            forall|e: int, b: int|
                0 <= e < lock.packages@.len() && 0 <= b < lock.packages@[e].required_by@.len()
                    ==> ({
                    let rb = #[trigger] lock.packages@[e].required_by@[b]@;
                    rb == "root"@ || has_entry(old_keys_holder, rb) || (exists|j: int|
                        0 <= j < plan@.len() && (#[trigger] plan@[j]@).info.name == rb)
                }),
            // every entry keeps at least one requester
            forall|e: int|
                0 <= e < lock.packages@.len() ==> (
                #[trigger] lock.packages@[e]).required_by@.len() > 0,
            // plan names are pairwise distinct
            forall|a: int, b: int|
                0 <= a < b < plan@.len() ==> (#[trigger] plan@[a]@).info.name != (
                #[trigger] plan@[b]@).info.name,
            // entries no processed step names are untouched, in place
            forall|k: int|
                0 <= k < old_keys_holder.len() && (forall|j: int|
                    0 <= j < i ==> (#[trigger] plan@[j]@).info.name != old_keys_holder[k].name@)
                    ==> (#[trigger] lock.packages@[k]) == old_keys_holder[k],
            // processed steps already shape their entries
            forall|j: int|
                0 <= j < i ==> step_entry_ok(
                    old_keys_holder,
                    lock.packages@,
                    (#[trigger] plan@[j])@,
                ),
        decreases plan@.len() - i,
    {
        let step = &plan[i];
        let ghost pre = lock.packages@;
        lock.add_package(
            step.info.name.as_str(),
            step.info.version.as_str(),
            step.info.dist.tarball.as_str(),
            step.info.dist.shasum.as_str(),
            crate::text::clone_dep_map(&step.info.dependencies),
            step.parent.as_str(),
        );
        proof {
            let ghost nm = plan@[i as int]@.info.name;
            assert(step.info.name@ == nm);
            assert forall|k: Seq<char>| #[trigger]
                has_entry(lock.packages@, k) <==> (has_entry(old_keys_holder, k) || (exists|j: int|
                    0 <= j < i + 1 && (#[trigger] plan@[j]@).info.name == k)) by {
                if has_entry(lock.packages@, k) {
                    if has_entry(pre, k) {
                    } else {
                        assert(k == nm);
                        assert(plan@[i as int]@.info.name == k);
                    }
                }
                if exists|j: int| 0 <= j < i + 1 && (#[trigger] plan@[j]@).info.name == k {
                    let j = choose|j: int|
                        0 <= j < i + 1 && (#[trigger] plan@[j]@).info.name == k;
                    if j < i {
                        assert(has_entry(pre, k));
                    }
                }
            }
            // requester bookkeeping: old entries at most gained the step's
            // parent; the step's entry holds old requesters plus the parent
            assert forall|e: int, b: int|
                0 <= e < lock.packages@.len() && 0 <= b
                    < lock.packages@[e].required_by@.len() implies ({
                let rb = #[trigger] lock.packages@[e].required_by@[b]@;
                rb == "root"@ || has_entry(old_keys_holder, rb) || (exists|j: int|
                    0 <= j < plan@.len() && (#[trigger] plan@[j]@).info.name == rb)
            }) by {
                let rb = lock.packages@[e].required_by@[b]@;
                assert(lock.packages@[e].required_by.deep_view()[b] == rb);
                let eix = crate::lockfile::entry_ix(lock.packages@, nm);
                if e == eix {
                    let en = crate::lockfile::entry_of(lock.packages@, nm);
                    assert(lock.packages@[e] == en);
                    if has_entry(pre, nm) {
                        let oe = crate::lockfile::entry_of(pre, nm);
                        if en.required_by.deep_view() == oe.required_by.deep_view() {
                            assert(oe.required_by.deep_view()[b] == rb);
                            let oix = crate::lockfile::entry_ix(pre, nm);
                            assert(pre[oix].required_by@[b]@ == rb);
                        } else {
                            assert(oe.required_by.deep_view().len() == oe.required_by@.len());
                            assert(en.required_by.deep_view() == oe.required_by.deep_view().push(
                                plan@[i as int]@.parent,
                            ));
                            if b < oe.required_by@.len() {
                                assert(en.required_by.deep_view()[b]
                                    == oe.required_by.deep_view()[b]);
                                let oix = crate::lockfile::entry_ix(pre, nm);
                                assert(pre[oix].required_by@[b]@ == rb);
                            } else {
                                assert(b == oe.required_by.deep_view().len());
                                assert(en.required_by.deep_view()[b] == plan@[i as int]@.parent);
                                assert(rb == plan@[i as int]@.parent);
                            }
                        }
                    } else {
                        assert(en.required_by.deep_view() == seq![plan@[i as int]@.parent]);
                        assert(en.required_by.deep_view().len() == 1);
                        assert(b == 0);
                        assert(en.required_by.deep_view()[0] == plan@[i as int]@.parent);
                        assert(rb == plan@[i as int]@.parent);
                    }
                    if rb == plan@[i as int]@.parent && rb != "root"@ && !has_entry(
                        old_keys_holder,
                        rb,
                    ) {
                        assert(plan@[i as int]@.parent == "root"@ || (exists|j: int|
                            0 <= j < plan@.len() && (#[trigger] plan@[j]@).info.name
                                == plan@[i as int]@.parent));
                    }
                } else {
                    assert(lock.packages@[e] == pre[e]);
                    assert(pre[e].required_by@[b]@ == rb);
                }
            }
            assert forall|e: int| 0 <= e < lock.packages@.len() implies (
            #[trigger] lock.packages@[e]).required_by@.len() > 0 by {
                let eix = crate::lockfile::entry_ix(lock.packages@, nm);
                if e != eix {
                    assert(lock.packages@[e] == pre[e]);
                } else {
                    let en = crate::lockfile::entry_of(lock.packages@, nm);
                    assert(lock.packages@[e] == en);
                    if has_entry(pre, nm) {
                        let oix = crate::lockfile::entry_ix(pre, nm);
                        assert(pre[oix].required_by@.len() > 0);
                        let oe = crate::lockfile::entry_of(pre, nm);
                        assert(oe == pre[oix]);
                        assert(oe.required_by.deep_view().len() == oe.required_by@.len());
                        assert(en.required_by.deep_view().len() >= oe.required_by.deep_view().len());
                        assert(en.required_by@.len() == en.required_by.deep_view().len());
                    } else {
                        assert(en.required_by.deep_view() == seq![plan@[i as int]@.parent]);
                        assert(en.required_by@.len() == en.required_by.deep_view().len());
                    }
                }
            }
            // untouched entries stay in place
            assert forall|k: int|
                0 <= k < old_keys_holder.len() && (forall|j: int|
                    0 <= j < i + 1 ==> (#[trigger] plan@[j]@).info.name
                        != old_keys_holder[k].name@) implies (#[trigger] lock.packages@[k])
                == old_keys_holder[k] by {
                assert forall|j2: int|
                    0 <= j2 < i implies (#[trigger] plan@[j2]@).info.name
                        != old_keys_holder[k].name@ by {}
                assert(pre[k] == old_keys_holder[k]);
                assert(pre[k].name@ != nm);
            }
            // the step's name is fresh among processed names, so the entry's
            // prior state is the original one
            assert(has_entry(pre, nm) <==> has_entry(old_keys_holder, nm)) by {
                if has_entry(pre, nm) && !has_entry(old_keys_holder, nm) {
                    let j2 = choose|j2: int|
                        0 <= j2 < i && (#[trigger] plan@[j2]@).info.name == nm;
                    assert(plan@[j2]@.info.name != plan@[i as int]@.info.name);
                }
            }
            if has_entry(old_keys_holder, nm) {
                let oix0 = crate::lockfile::entry_ix(old_keys_holder, nm);
                assert forall|j2: int|
                    0 <= j2 < i implies (#[trigger] plan@[j2]@).info.name
                        != old_keys_holder[oix0].name@ by {
                    assert(plan@[j2]@.info.name != nm);
                }
                assert(0 <= oix0 < old_keys_holder.len());
                assert(old_keys_holder.len() <= pre.len());
                assert(pre[oix0] == old_keys_holder[oix0]);
                crate::lockfile::lemma_entry_ix_unique(pre, nm, oix0);
            }
            // the current step's entry has the step's shape
            assert(step_entry_ok(old_keys_holder, lock.packages@, plan@[i as int]@)) by {
                reveal(step_entry_ok);
                let e = crate::lockfile::entry_of(lock.packages@, nm);
                let par = plan@[i as int]@.parent;
                if has_entry(pre, nm) {
                    let oe = crate::lockfile::entry_of(pre, nm);
                    if e.required_by.deep_view() == oe.required_by.deep_view() {
                        assert(e.required_by.deep_view().contains(par));
                    } else {
                        assert(e.required_by.deep_view() == oe.required_by.deep_view().push(par));
                        assert(e.required_by.deep_view().last() == par);
                    }
                    assert forall|b: int|
                        0 <= b < e.required_by@.len() implies (oe.required_by.deep_view().contains(
                        (#[trigger] e.required_by@[b])@,
                    ) || e.required_by@[b]@ == par) by {
                        assert(e.required_by.deep_view()[b] == e.required_by@[b]@);
                        if e.required_by.deep_view() != oe.required_by.deep_view() && b
                            < oe.required_by.deep_view().len() {
                            assert(e.required_by.deep_view()[b]
                                == oe.required_by.deep_view()[b]);
                        }
                    }
                } else {
                    assert(e.required_by.deep_view() == seq![par]);
                    assert(e.required_by.deep_view()[0] == par);
                }
            }
            // earlier steps keep their shaped entries
            assert forall|j2: int|
                0 <= j2 < i + 1 implies step_entry_ok(
                old_keys_holder,
                lock.packages@,
                (#[trigger] plan@[j2])@,
            ) by {
                if j2 < i {
                    let nj = plan@[j2]@.info.name;
                    assert(nj != nm);
                    assert(has_entry(pre, nj)) by {
                        reveal(step_entry_ok);
                        assert(step_entry_ok(old_keys_holder, pre, plan@[j2]@));
                        if has_entry(pre, nj) {
                        } else {
                            assert(false);
                        }
                    }
                    let jx = crate::lockfile::entry_ix(pre, nj);
                    assert(pre[jx].name@ == nj);
                    assert(lock.packages@[jx] == pre[jx]);
                    crate::lockfile::lemma_entry_ix_unique(lock.packages@, nj, jx);
                    lemma_step_entry_stable(old_keys_holder, pre, lock.packages@, plan@[j2]@);
                }
            }
        }
        i = i + 1;
    }
    proof {
        assert forall|e: int|
            0 <= e < lock.packages@.len() implies ({
            let rbs = (#[trigger] lock.packages@[e]).required_by.deep_view();
            rbs.len() > 0 && forall|b: int|
                0 <= b < rbs.len() ==> rbs[b] == "root"@ || has_entry(lock.packages@, rbs[b])
        }) by {
            let rbs = lock.packages@[e].required_by.deep_view();
            assert forall|b: int|
                0 <= b < rbs.len() implies rbs[b] == "root"@ || has_entry(
                lock.packages@,
                rbs[b],
            ) by {
                let rb = lock.packages@[e].required_by@[b]@;
                assert(rbs[b] == rb);
                if rb != "root"@ {
                    if has_entry(old_keys_holder, rb) {
                        assert(has_entry(lock.packages@, rb));
                    } else {
                        let j = choose|j: int|
                            0 <= j < plan@.len() && (#[trigger] plan@[j]@).info.name == rb;
                        assert(has_entry(lock.packages@, rb));
                    }
                }
            }
        }
    }
}

/// Every lock entry keeps at least one requester; half of lock consistency,
/// and the half the uninstall cascade preserves unconditionally.
pub open spec fn all_required_by_nonempty(l: LockFile) -> bool {
    forall|e: int| 0 <= e < l.packages@.len() ==> (#[trigger] l.packages@[e]).required_by@.len() > 0
}

/// What uninstalling decided: the package was never locked, it is still
/// required by others and nothing changed, or it was removed along with the
/// cascade of dependencies nothing else required.
pub enum UninstallOutcome {
    NotInstalled,
    Blocked(Vec<String>),
    Removed(Vec<String>),
}

/// Removes the requester `requester` from `name`'s entry; when the entry
/// empties it is dropped and the cascade repeats on its recorded
/// dependencies, with the dropped package as the requester. Returns the
/// names fully removed, which the caller must delete from disk. The lock
/// only ever shrinks, and when the reverse-dependency edges of `orig` (the
/// lock the whole cascade started from) agree with its recorded dependency
/// maps, every fully removed name disappears from every requester set.
fn cascade_remove(
    lock: &mut LockFile,
    name: &str,
    requester: &str,
    removed: &mut Vec<String>,
    Ghost(orig): Ghost<LockFile>,
)
    requires
        wf_lock(*old(lock)),
    ensures
        wf_lock(*final(lock)),
        final(lock).packages@.len() <= old(lock).packages@.len(),
        forall|k: Seq<char>|
            #[trigger] has_entry(final(lock).packages@, k) ==> has_entry(old(lock).packages@, k),
        final(removed)@.len() >= old(removed)@.len(),
        final(removed).deep_view().take(old(removed)@.len() as int) == old(removed).deep_view(),
        (has_entry(old(lock).packages@, name@) && without(
            entry_of(old(lock).packages@, name@).required_by.deep_view(),
            requester@,
        ).len() == 0) ==> (!has_entry(final(lock).packages@, name@) && final(removed)@.len() > old(
            removed,
        )@.len() && final(removed).deep_view()[old(removed)@.len() as int] == name@),
        all_required_by_nonempty(*old(lock)) ==> all_required_by_nonempty(*final(lock)),
        crate::lockfile::lock_shrinks(old(lock).packages@, final(lock).packages@),
        forall|k: Seq<char>|
            (#[trigger] has_entry(old(lock).packages@, k) && !has_entry(
                final(lock).packages@,
                k,
            )) ==> (exists|j: int|
                old(removed)@.len() <= j < final(removed)@.len()
                    && final(removed).deep_view()[j] == k),
        forall|j: int|
            old(removed)@.len() <= j < final(removed)@.len() ==> (has_entry(
                old(lock).packages@,
                (#[trigger] final(removed).deep_view()[j]),
            ) && !has_entry(final(lock).packages@, final(removed).deep_view()[j])),
        has_entry(final(lock).packages@, name@) ==> !entry_of(
            final(lock).packages@,
            name@,
        ).required_by.deep_view().contains(requester@),
        (wf_lock(orig) && crate::lockfile::edges_match(orig) && crate::lockfile::lock_shrinks(
            orig.packages@,
            old(lock).packages@,
        )) ==> (forall|r: Seq<char>|
            r != "root"@ && #[trigger] has_entry(old(lock).packages@, r) && !has_entry(
                final(lock).packages@,
                r,
            ) ==> crate::lockfile::rb_clean(final(lock).packages@, r)),
    decreases lock.packages@.len(),
{
    let ghost pre = lock.packages@;
    let ghost r0 = removed.deep_view();
    let ghost hyp = wf_lock(orig) && crate::lockfile::edges_match(orig)
        && crate::lockfile::lock_shrinks(orig.packages@, pre);
    let ghost entry0 = entry_of(pre, name@);
    let deps: Vec<String> = match lock.get_entry(name) {
        None => Vec::new(),
        Some(e) => {
            let mut ds: Vec<String> = Vec::new();
            match &e.dependencies {
                None => {},
                Some(dm) => {
                    let mut di: usize = 0;
                    while di < dm.len()
                        invariant
                            dm@ == entry0.dependencies->Some_0@,
                            entry0.dependencies is Some,
                            di <= dm@.len(),
                            ds.deep_view().len() == di,
                            forall|k: int|
                                0 <= k < di ==> (#[trigger] ds.deep_view()[k]) == dm@[k].0@,
                        decreases dm@.len() - di,
                    {
                        let ghost dpre = ds.deep_view();
                        ds.push(dm[di].0.clone());
                        proof {
                            assert(ds.deep_view() =~= dpre.push(dm@[di as int].0@));
                        }
                        di = di + 1;
                    }
                },
            }
            ds
        },
    };
    proof {
        if has_entry(pre, name@) {
            assert forall|n: Seq<char>|
                #[trigger] crate::lockfile::entry_declares(entry0, n) implies
                deps.deep_view().contains(n) by {
                let k = choose|k: int|
                    0 <= k < entry0.dependencies->Some_0@.len() && (
                    #[trigger] entry0.dependencies->Some_0@[k].0@) == n;
                assert(deps.deep_view()[k] == n);
            }
        }
    }
    let fully_removed = lock.remove_package(name, requester);
    if fully_removed {
        proof {
            assert(has_entry(pre, name@));
            assert(lock.packages@.len() < pre.len());
            let ix = crate::lockfile::entry_ix(pre, name@);
            assert forall|k: Seq<char>| #[trigger]
                has_entry(lock.packages@, k) implies has_entry(pre, k) by {
                let j = choose|j: int|
                    0 <= j < lock.packages@.len() && (#[trigger] lock.packages@[j].name@) == k;
                if j < ix {
                    assert(pre[j].name@ == k);
                } else {
                    assert(pre[j + 1].name@ == k);
                }
            }
            assert(!has_entry(lock.packages@, name@)) by {
                if has_entry(lock.packages@, name@) {
                    let j = choose|j: int|
                        0 <= j < lock.packages@.len() && (#[trigger] lock.packages@[j].name@)
                            == name@;
                    if j < ix {
                        assert(pre[j].name@ == name@);
                        crate::lockfile::lemma_entry_ix_unique(pre, name@, j);
                    } else {
                        assert(pre[j + 1].name@ == name@);
                        crate::lockfile::lemma_entry_ix_unique(pre, name@, j + 1);
                    }
                }
            }
            if all_required_by_nonempty(*old(lock)) {
                assert forall|e: int| 0 <= e < lock.packages@.len() implies (
                #[trigger] lock.packages@[e]).required_by@.len() > 0 by {
                    if e < ix {
                        assert(lock.packages@[e] == pre[e]);
                    } else {
                        assert(lock.packages@[e] == pre[e + 1]);
                    }
                }
            }
            // Dropping one whole entry shrinks the lock.
            assert forall|e: int|
                0 <= e < lock.packages@.len() implies ({
                let n = (#[trigger] lock.packages@[e]).name@;
                &&& has_entry(pre, n)
                &&& lock.packages@[e].dependencies == entry_of(pre, n).dependencies
                &&& forall|b: int|
                    0 <= b < lock.packages@[e].required_by@.len() ==> entry_of(
                        pre,
                        n,
                    ).required_by.deep_view().contains(
                        (#[trigger] lock.packages@[e].required_by@[b])@,
                    )
            }) by {
                let cur = lock.packages@[e];
                let src = if e < ix {
                    e
                } else {
                    e + 1
                };
                assert(cur == pre[src]);
                crate::lockfile::lemma_entry_ix_unique(pre, cur.name@, src);
                assert forall|b: int|
                    0 <= b < cur.required_by@.len() implies entry_of(
                    pre,
                    cur.name@,
                ).required_by.deep_view().contains((#[trigger] cur.required_by@[b])@) by {
                    assert(pre[src].required_by.deep_view()[b] == cur.required_by@[b]@);
                }
            }
            assert(crate::lockfile::lock_shrinks(pre, lock.packages@));
            assert forall|r: Seq<char>|
                r != name@ && #[trigger] has_entry(pre, r) implies has_entry(
                lock.packages@,
                r,
            ) by {
                let j = choose|j: int| 0 <= j < pre.len() && (#[trigger] pre[j].name@) == r;
                if j == ix {
                    assert(pre[ix].name@ == name@);
                } else if j < ix {
                    assert(lock.packages@[j].name@ == r);
                } else {
                    assert(lock.packages@[j - 1].name@ == r);
                }
            }
        }
        removed.push(name.to_owned());
        proof {
            assert(removed.deep_view() =~= r0.push(name@));
            assert(removed.deep_view().take(r0.len() as int) =~= r0);
            assert forall|k: Seq<char>|
                (#[trigger] has_entry(pre, k) && !has_entry(lock.packages@, k)) implies (exists|
                j: int,
            |
                r0.len() <= j < removed@.len() && removed.deep_view()[j] == k) by {
                if k != name@ {
                    assert(has_entry(lock.packages@, k));
                } else {
                    assert(removed.deep_view()[r0.len() as int] == k);
                }
            }
        }
        let mut di: usize = 0;
        while di < deps.len()
            invariant
                wf_lock(*lock),
                pre == old(lock).packages@,
                wf_entries(pre),
                hyp == (wf_lock(orig) && crate::lockfile::edges_match(orig)
                    && crate::lockfile::lock_shrinks(orig.packages@, pre)),
                all_required_by_nonempty(*old(lock)) ==> all_required_by_nonempty(*lock),
                lock.packages@.len() < pre.len(),
                forall|k: Seq<char>|
                    #[trigger] has_entry(lock.packages@, k) ==> has_entry(pre, k),
                !has_entry(lock.packages@, name@),
                removed@.len() > r0.len(),
                removed.deep_view().take(r0.len() as int) == r0,
                removed.deep_view()[r0.len() as int] == name@,
                removed.deep_view().len() == removed@.len(),
                forall|k: Seq<char>|
                    (#[trigger] has_entry(pre, k) && !has_entry(lock.packages@, k)) ==> (exists|
                        j: int,
                    |
                        r0.len() <= j < removed@.len() && removed.deep_view()[j] == k),
                forall|j: int|
                    r0.len() <= j < removed@.len() ==> (has_entry(
                        pre,
                        (#[trigger] removed.deep_view()[j]),
                    ) && !has_entry(lock.packages@, removed.deep_view()[j])),
                di <= deps@.len(),
                crate::lockfile::lock_shrinks(pre, lock.packages@),
                hyp ==> crate::lockfile::lock_shrinks(orig.packages@, lock.packages@),
                hyp ==> (forall|r: Seq<char>|
                    r != "root"@ && r != name@ && #[trigger] has_entry(pre, r) && !has_entry(
                        lock.packages@,
                        r,
                    ) ==> crate::lockfile::rb_clean(lock.packages@, r)),
                hyp ==> (forall|k: int|
                    0 <= k < di ==> (!has_entry(lock.packages@, #[trigger] deps.deep_view()[k])
                        || !entry_of(
                        lock.packages@,
                        deps.deep_view()[k],
                    ).required_by.deep_view().contains(name@))),
            decreases deps@.len() - di,
        {
            let ghost mid = lock.packages@;
            let ghost rmid = removed.deep_view();
            let ghost dk = deps.deep_view()[di as int];
            proof {
                assert(dk == deps@[di as int]@);
            }
            cascade_remove(lock, deps[di].as_str(), name, removed, Ghost(orig));
            proof {
                let post = lock.packages@;
                assert forall|k: Seq<char>| #[trigger]
                    has_entry(post, k) implies has_entry(pre, k) by {
                    assert(has_entry(mid, k));
                }
                assert(removed.deep_view().take(r0.len() as int) =~= r0) by {
                    assert(removed.deep_view().take(rmid.len() as int) == rmid);
                    assert forall|q: int| 0 <= q < r0.len() implies removed.deep_view().take(
                        r0.len() as int,
                    )[q] == r0[q] by {
                        assert(removed.deep_view().take(rmid.len() as int)[q] == rmid[q]);
                        assert(rmid.take(r0.len() as int)[q] == r0[q]);
                    }
                }
                assert(removed.deep_view()[r0.len() as int] == name@) by {
                    assert(removed.deep_view().take(rmid.len() as int)[r0.len() as int]
                        == rmid[r0.len() as int]);
                }
                assert forall|k: Seq<char>|
                    (#[trigger] has_entry(pre, k) && !has_entry(post, k)) implies (exists|j: int|
                    r0.len() <= j < removed@.len() && removed.deep_view()[j] == k) by {
                    if has_entry(mid, k) {
                        let j = choose|j: int|
                            rmid.len() <= j < removed@.len() && removed.deep_view()[j] == k;
                        assert(r0.len() <= j);
                    } else {
                        let j = choose|j: int|
                            r0.len() <= j < rmid.len() && rmid[j] == k;
                        assert(removed.deep_view().take(rmid.len() as int)[j] == rmid[j]);
                        assert(removed.deep_view()[j] == k);
                    }
                }
                assert forall|j: int|
                    r0.len() <= j < removed@.len() implies (has_entry(
                    pre,
                    (#[trigger] removed.deep_view()[j]),
                ) && !has_entry(post, removed.deep_view()[j])) by {
                    let k = removed.deep_view()[j];
                    if j < rmid.len() {
                        assert(removed.deep_view().take(rmid.len() as int)[j] == rmid[j]);
                        assert(rmid[j] == k);
                        assert(has_entry(pre, k) && !has_entry(mid, k));
                        if has_entry(post, k) {
                            assert(has_entry(mid, k));
                        }
                    } else {
                        assert(has_entry(mid, k) && !has_entry(post, k));
                    }
                }
                crate::lockfile::lemma_shrinks_trans(pre, mid, post);
                if hyp {
                    crate::lockfile::lemma_shrinks_trans(orig.packages@, mid, post);
                    assert forall|r: Seq<char>|
                        r != "root"@ && r != name@ && #[trigger] has_entry(pre, r) && !has_entry(
                            post,
                            r,
                        ) implies crate::lockfile::rb_clean(post, r) by {
                        if has_entry(mid, r) {
                            assert(crate::lockfile::rb_clean(post, r));
                        } else {
                            crate::lockfile::lemma_shrink_preserves_clean(mid, post, r);
                        }
                    }
                    assert forall|k: int|
                        0 <= k < di + 1 implies (!has_entry(
                        post,
                        #[trigger] deps.deep_view()[k],
                    ) || !entry_of(post, deps.deep_view()[k]).required_by.deep_view().contains(
                        name@,
                    )) by {
                        let d = deps.deep_view()[k];
                        if k < di {
                            if has_entry(post, d) {
                                assert(has_entry(mid, d));
                                if !entry_of(mid, d).required_by.deep_view().contains(name@) {
                                    let ip = crate::lockfile::entry_ix(post, d);
                                    assert(post[ip].name@ == d);
                                    assert forall|b: int|
                                        0 <= b < post[ip].required_by@.len() implies (
                                    #[trigger] post[ip].required_by@[b])@ != name@ by {
                                        let x = post[ip].required_by@[b]@;
                                        assert(entry_of(
                                            mid,
                                            d,
                                        ).required_by.deep_view().contains(x));
                                    }
                                    if entry_of(post, d).required_by.deep_view().contains(name@) {
                                        let bq = choose|bq: int|
                                            0 <= bq < entry_of(
                                                post,
                                                d,
                                            ).required_by.deep_view().len() && entry_of(
                                                post,
                                                d,
                                            ).required_by.deep_view()[bq] == name@;
                                        assert(post[ip].required_by@[bq]@ == name@);
                                    }
                                }
                            }
                        }
                    }
                }
            }
            di = di + 1;
        }
        proof {
            if hyp {
                // Every requester set that named the dropped package sat in
                // one of its recorded dependencies, and the loop cleaned them
                // all.
                let fin = lock.packages@;
                assert forall|r: Seq<char>|
                    r != "root"@ && #[trigger] has_entry(pre, r) && !has_entry(fin, r) implies
                    crate::lockfile::rb_clean(fin, r) by {
                    if r == name@ {
                        assert forall|e: int, b: int|
                            0 <= e < fin.len() && 0 <= b < fin[e].required_by@.len() implies (
                        #[trigger] fin[e].required_by@[b])@ != name@ by {
                            let x = fin[e].required_by@[b]@;
                            if x == name@ {
                                let n = fin[e].name@;
                                // climb to the original lock's requester set
                                assert(entry_of(pre, n).required_by.deep_view().contains(x));
                                let k1 = choose|k1: int|
                                    0 <= k1 < entry_of(pre, n).required_by.deep_view().len()
                                        && entry_of(pre, n).required_by.deep_view()[k1] == x;
                                let ipre = crate::lockfile::entry_ix(pre, n);
                                assert(pre[ipre].required_by@[k1]@ == x);
                                assert(entry_of(
                                    orig.packages@,
                                    n,
                                ).required_by.deep_view().contains(x));
                                let k0 = choose|k0: int|
                                    0 <= k0 < entry_of(
                                        orig.packages@,
                                        n,
                                    ).required_by.deep_view().len() && entry_of(
                                        orig.packages@,
                                        n,
                                    ).required_by.deep_view()[k0] == x;
                                let io = crate::lockfile::entry_ix(orig.packages@, n);
                                assert(orig.packages@[io].required_by@[k0]@ == name@);
                                // the original edges name the dependency
                                assert(has_entry(orig.packages@, name@) &&
                                    crate::lockfile::entry_declares(
                                        entry_of(orig.packages@, name@),
                                        n,
                                    ));
                                // the dropped entry's recorded map is the
                                // original one, so the loop visited `n`
                                let ixp = crate::lockfile::entry_ix(pre, name@);
                                assert(pre[ixp].name@ == name@);
                                assert(pre[ixp].dependencies == entry_of(
                                    orig.packages@,
                                    name@,
                                ).dependencies);
                                assert(entry0 == pre[ixp]);
                                assert(crate::lockfile::entry_declares(entry0, n));
                                assert(deps.deep_view().contains(n));
                                let kd = choose|kd: int|
                                    0 <= kd < deps.deep_view().len() && deps.deep_view()[kd] == n;
                                assert(has_entry(fin, n)) by {
                                    assert(fin[e].name@ == n);
                                }
                                let ie = crate::lockfile::entry_ix(fin, n);
                                if ie != e {
                                    if ie < e {
                                        assert(fin[ie].name@ != fin[e].name@);
                                    } else {
                                        assert(fin[e].name@ != fin[ie].name@);
                                    }
                                }
                                assert(!entry_of(fin, n).required_by.deep_view().contains(name@));
                                assert(entry_of(fin, n).required_by.deep_view()[b] == x);
                            }
                        }
                    }
                }
            }
        }
    } else {
        proof {
            assert(removed.deep_view().take(r0.len() as int) =~= r0);
            if !has_entry(pre, name@) {
                crate::lockfile::lemma_shrinks_refl(pre);
            } else {
                let ix = crate::lockfile::entry_ix(pre, name@);
                let rem = without(pre[ix].required_by.deep_view(), requester@);
                assert(rem.len() > 0);
                assert forall|k: Seq<char>| #[trigger]
                    has_entry(lock.packages@, k) implies has_entry(pre, k) by {
                    let j = choose|j: int|
                        0 <= j < lock.packages@.len() && (#[trigger] lock.packages@[j].name@) == k;
                    if j != ix {
                        assert(lock.packages@[j] == pre[j]);
                        assert(pre[j].name@ == k);
                    } else {
                        assert(pre[j].name@ == k);
                    }
                }
                assert forall|k: Seq<char>| #[trigger]
                    has_entry(pre, k) implies has_entry(lock.packages@, k) by {
                    let j = choose|j: int|
                        0 <= j < pre.len() && (#[trigger] pre[j].name@) == k;
                    if j != ix {
                        assert(lock.packages@[j].name@ == k);
                    } else {
                        assert(lock.packages@[j].name@ == k);
                    }
                }
                if all_required_by_nonempty(*old(lock)) {
                    assert forall|e: int| 0 <= e < lock.packages@.len() implies (
                    #[trigger] lock.packages@[e]).required_by@.len() > 0 by {
                        if e != ix {
                            assert(lock.packages@[e] == pre[e]);
                        } else {
                            assert(lock.packages@[e].required_by.deep_view() == rem);
                        }
                    }
                }
                // Thinning one requester set shrinks the lock.
                assert forall|e: int|
                    0 <= e < lock.packages@.len() implies ({
                    let n = (#[trigger] lock.packages@[e]).name@;
                    &&& has_entry(pre, n)
                    &&& lock.packages@[e].dependencies == entry_of(pre, n).dependencies
                    &&& forall|b: int|
                        0 <= b < lock.packages@[e].required_by@.len() ==> entry_of(
                            pre,
                            n,
                        ).required_by.deep_view().contains(
                            (#[trigger] lock.packages@[e].required_by@[b])@,
                        )
                }) by {
                    let cur = lock.packages@[e];
                    if e != ix {
                        assert(cur == pre[e]);
                        crate::lockfile::lemma_entry_ix_unique(pre, cur.name@, e);
                        assert forall|b: int|
                            0 <= b < cur.required_by@.len() implies entry_of(
                            pre,
                            cur.name@,
                        ).required_by.deep_view().contains((#[trigger] cur.required_by@[b])@) by {
                            assert(pre[e].required_by.deep_view()[b] == cur.required_by@[b]@);
                        }
                    } else {
                        assert(cur.name == pre[ix].name);
                        crate::lockfile::lemma_entry_ix_unique(pre, cur.name@, ix);
                        assert(cur.required_by.deep_view() == rem);
                        assert forall|b: int|
                            0 <= b < cur.required_by@.len() implies entry_of(
                            pre,
                            cur.name@,
                        ).required_by.deep_view().contains((#[trigger] cur.required_by@[b])@) by {
                            let x = cur.required_by@[b]@;
                            assert(cur.required_by.deep_view()[b] == x);
                            assert(rem.contains(x));
                            pre[ix].required_by.deep_view().lemma_filter_contains_rev(
                                |d: Seq<char>| d != requester@,
                                x,
                            );
                        }
                    }
                }
                assert(crate::lockfile::lock_shrinks(pre, lock.packages@));
                // The requester is out of the surviving entry.
                let ie = crate::lockfile::entry_ix(lock.packages@, name@);
                if ie != ix {
                    if ie < ix {
                        assert(lock.packages@[ie].name@ != lock.packages@[ix].name@);
                    } else {
                        assert(lock.packages@[ix].name@ != lock.packages@[ie].name@);
                    }
                }
                assert(!entry_of(lock.packages@, name@).required_by.deep_view().contains(
                    requester@,
                )) by {
                    if entry_of(lock.packages@, name@).required_by.deep_view().contains(
                        requester@,
                    ) {
                        let bq = choose|bq: int|
                            0 <= bq < rem.len() && rem[bq] == requester@;
                        pre[ix].required_by.deep_view().lemma_filter_pred(
                            |d: Seq<char>| d != requester@,
                            bq,
                        );
                    }
                }
            }
        }
    }
}

/// Uninstalls `package_name` from the lock. Succeeds exactly when no
/// requester besides the literal `root` holds the package; on success the
/// entry is dropped and the requester cascade runs over its recorded
/// dependencies, fully removing each dependency whose requester set empties,
/// recursively. The returned names are exactly the entries removed, for the
/// caller to delete from disk and from the project manifest; the lock only
/// ever shrinks, and from a consistent lock whose reverse-dependency edges
/// agree with its recorded dependency maps, the surviving lock is consistent
/// and no surviving requester set mentions a removed name.
pub fn uninstall_package(lock: &mut LockFile, package_name: &str) -> (r: UninstallOutcome)
    requires
        wf_lock(*old(lock)),
    ensures
        wf_lock(*final(lock)),
        crate::lockfile::lock_shrinks(old(lock).packages@, final(lock).packages@),
        all_required_by_nonempty(*old(lock)) ==> all_required_by_nonempty(*final(lock)),
        (lock_consistent(*old(lock)) && crate::lockfile::edges_match(*old(lock)))
            ==> lock_consistent(*final(lock)),
        !has_entry(old(lock).packages@, package_name@) ==> r is NotInstalled && *final(lock)
            == *old(lock),
        has_entry(old(lock).packages@, package_name@) ==> ({
            let remaining = without(
                entry_of(old(lock).packages@, package_name@).required_by.deep_view(),
                "root"@,
            );
            if remaining.len() > 0 {
                r matches UninstallOutcome::Blocked(who) && who.deep_view() == remaining
                    && *final(lock) == *old(lock)
            } else {
                (r matches UninstallOutcome::Removed(names) && names@.len() > 0
                    && names.deep_view()[0] == package_name@) && !has_entry(
                    final(lock).packages@,
                    package_name@,
                ) && (forall|k: Seq<char>|
                    #[trigger] has_entry(final(lock).packages@, k) ==> has_entry(
                        old(lock).packages@,
                        k,
                    ))
            }
        }),
        r matches UninstallOutcome::Removed(names) ==> (forall|k: Seq<char>|
            (#[trigger] has_entry(old(lock).packages@, k) && !has_entry(
                final(lock).packages@,
                k,
            )) <==> names.deep_view().contains(k)),
        r matches UninstallOutcome::Removed(names) ==> ((lock_consistent(*old(lock))
            && crate::lockfile::edges_match(*old(lock))) ==> (forall|k: Seq<char>|
            #[trigger] names.deep_view().contains(k) && k != "root"@
                ==> crate::lockfile::rb_clean(final(lock).packages@, k))),
{
    let probe = lock.get_entry(package_name);
    if probe.is_none() {
        proof {
            crate::lockfile::lemma_shrinks_refl(lock.packages@);
        }
        return UninstallOutcome::NotInstalled;
    }
    let (can_remove, dependents) = lock.can_remove_package(package_name, "root");
    if !can_remove {
        proof {
            crate::lockfile::lemma_shrinks_refl(lock.packages@);
        }
        return UninstallOutcome::Blocked(dependents);
    }
    let mut removed: Vec<String> = Vec::new();
    proof {
        assert(removed.deep_view() =~= Seq::<Seq<char>>::empty());
        crate::lockfile::lemma_shrinks_refl(old(lock).packages@);
    }
    cascade_remove(lock, package_name, "root", &mut removed, Ghost(*old(lock)));
    proof {
        if lock_consistent(*old(lock)) && crate::lockfile::edges_match(*old(lock)) {
            let pre = old(lock).packages@;
            let fin = lock.packages@;
            assert forall|e: int|
                0 <= e < fin.len() implies ({
                let rb = (#[trigger] fin[e]).required_by.deep_view();
                &&& rb.len() > 0
                &&& forall|j: int|
                    0 <= j < rb.len() ==> rb[j] == "root"@ || has_entry(fin, rb[j])
            }) by {
                assert(fin[e].required_by@.len() > 0) by {
                    assert(all_required_by_nonempty(*old(lock)));
                }
                let rb = fin[e].required_by.deep_view();
                assert forall|j: int|
                    0 <= j < rb.len() implies rb[j] == "root"@ || has_entry(fin, rb[j]) by {
                    let x = rb[j];
                    assert(fin[e].required_by@[j]@ == x);
                    if x != "root"@ {
                        // the requester came from the original set, whose
                        // consistency places it among the original entries
                        let n = fin[e].name@;
                        assert(entry_of(pre, n).required_by.deep_view().contains(x));
                        let k = choose|k: int|
                            0 <= k < entry_of(pre, n).required_by.deep_view().len() && entry_of(
                                pre,
                                n,
                            ).required_by.deep_view()[k] == x;
                        let ip = crate::lockfile::entry_ix(pre, n);
                        assert(pre[ip].required_by.deep_view()[k] == x);
                        assert(has_entry(pre, x));
                        if !has_entry(fin, x) {
                            assert(crate::lockfile::rb_clean(fin, x));
                            assert(fin[e].required_by@[j]@ != x);
                        }
                    }
                }
            }
            assert(lock_consistent(*lock));
        }
        let pre = old(lock).packages@;
        let fin = lock.packages@;
        assert forall|k: Seq<char>|
            (#[trigger] has_entry(pre, k) && !has_entry(fin, k)) <==> removed.deep_view().contains(
                k,
            ) by {
            if has_entry(pre, k) && !has_entry(fin, k) {
                let j = choose|j: int|
                    0 <= j < removed@.len() && removed.deep_view()[j] == k;
                assert(removed.deep_view().contains(k));
            }
            if removed.deep_view().contains(k) {
                let j = choose|j: int|
                    0 <= j < removed.deep_view().len() && removed.deep_view()[j] == k;
                assert(has_entry(pre, removed.deep_view()[j]));
            }
        }
        if lock_consistent(*old(lock)) && crate::lockfile::edges_match(*old(lock)) {
            assert forall|k: Seq<char>|
                #[trigger] removed.deep_view().contains(k) && k != "root"@ implies
                crate::lockfile::rb_clean(fin, k) by {
                assert(has_entry(pre, k) && !has_entry(fin, k));
            }
        }
    }
    UninstallOutcome::Removed(removed)
}

/// The verification gate of a download: the body's SHA-1 must equal the
/// digest the registry declared; on mismatch nothing may be written and the
/// error carries both digests for the operator.
pub fn check_download(tarball_data: &[u8], expected_shasum: &str) -> (r: Result<(), PkgError>)
    ensures
        r is Ok <==> sha1_hex_of(tarball_data@) == expected_shasum@,
        r matches Err(e) ==> (e matches PkgError::IntegrityMismatch(exp, got) && exp@
            == expected_shasum@ && got@ == sha1_hex_of(tarball_data@)),
{
    let computed = sha1_hex(tarball_data);
    if string_eq(computed.as_str(), expected_shasum) {
        Ok(())
    } else {
        Err(PkgError::IntegrityMismatch(expected_shasum.to_owned(), computed))
    }
}

/// The executable links one package's `bin` declaration induces: the short
/// string form names one command after the package itself; the table form
/// names one command per entry. Each pair is command name and target path
/// inside the package.
pub fn bin_links(package_name: &str, bin: &BinSpec) -> (r: Vec<(String, String)>)
    ensures
        ({
            match bin@ {
                crate::registry::BinModel::Missing => r.deep_view() == Seq::<(
                    Seq<char>,
                    Seq<char>,
                )>::empty(),
                crate::registry::BinModel::Single(p) => r.deep_view() == seq![
                    (package_name@, p),
                ],
                crate::registry::BinModel::Table(t) => r.deep_view() == t,
            }
        }),
{
    match bin {
        BinSpec::Missing => {
            let r: Vec<(String, String)> = Vec::new();
            proof {
                assert(r.deep_view() =~= Seq::<(Seq<char>, Seq<char>)>::empty());
            }
            r
        },
        BinSpec::Single(p) => {
            let mut r: Vec<(String, String)> = Vec::new();
            r.push((package_name.to_owned(), p.clone()));
            proof {
                assert(r.deep_view() =~= seq![(package_name@, p@)]);
            }
            r
        },
        BinSpec::Table(t) => {
            let r = crate::text::clone_pairs(t);
            r
        },
    }
}

} // verus!
