use vstd::prelude::*;
use crate::text::{string_eq, vec_contains_str};

verus! {

/// How lock state is persisted; the engine's logic is the same for all modes.
#[derive(Debug, Clone, Copy, PartialEq, Eq, Structural)]
pub enum LockMode {
    /// Content store only.
    Implicit,
    /// Traditional lock files.
    Explicit,
    /// Both.
    Hybrid,
    /// Pure in-memory.
    Memory,
}

impl Default for LockMode {
    fn default() -> (r: Self)
        ensures
            r is Implicit,
    {
        LockMode::Implicit
    }
}

/// One locked package: the resolved version, where it came from, its expected
/// digest, its declared dependency map, and the set of packages that require
/// it (the literal name `root` stands for the project itself).
pub struct LockedPackage {
    pub name: String,
    pub version: String,
    pub resolved: String,
    pub integrity: String,
    pub dependencies: Option<Vec<(String, String)>>,
    pub required_by: Vec<String>,
}

/// The project lock: a schema version and one entry per package name.
pub struct LockFile {
    pub version: String,
    pub packages: Vec<LockedPackage>,
}

/// Entry names are pairwise distinct, so the entry list is a map keyed by name.
pub open spec fn wf_entries(s: Seq<LockedPackage>) -> bool {
    forall|i: int, j: int|
        0 <= i < j < s.len() ==> (#[trigger] s[i].name@) != (#[trigger] s[j].name@)
}

/// Well-formedness of a lock file.
pub open spec fn wf_lock(l: LockFile) -> bool {
    wf_entries(l.packages@)
}

/// Some entry carries this name.
pub open spec fn has_entry(s: Seq<LockedPackage>, name: Seq<char>) -> bool {
    exists|i: int| 0 <= i < s.len() && (#[trigger] s[i].name@) == name
}

/// The index of the entry with this name.
pub open spec fn entry_ix(s: Seq<LockedPackage>, name: Seq<char>) -> int {
    choose|i: int| 0 <= i < s.len() && (#[trigger] s[i].name@) == name
}

/// The entry with this name.
pub open spec fn entry_of(s: Seq<LockedPackage>, name: Seq<char>) -> LockedPackage {
    s[entry_ix(s, name)]
}

/// `s` without the occurrences of `x`.
pub open spec fn without(s: Seq<Seq<char>>, x: Seq<char>) -> Seq<Seq<char>> {
    s.filter(|d: Seq<char>| d != x)
}

/// Filtering one more element keeps it exactly when it differs from `x`.
pub proof fn lemma_without_push(s: Seq<Seq<char>>, e: Seq<char>, x: Seq<char>)
    ensures
        without(s.push(e), x) == (if e != x {
            without(s, x).push(e)
        } else {
            without(s, x)
        }),
{
    reveal(Seq::filter);
    assert(s.push(e).drop_last() =~= s);
    assert(s.push(e).last() == e);
}

/// Under distinct names, the entry index is the unique witness.
pub proof fn lemma_entry_ix_unique(s: Seq<LockedPackage>, name: Seq<char>, i: int)
    requires
        wf_entries(s),
        0 <= i < s.len(),
        s[i].name@ == name,
    ensures
        has_entry(s, name),
        entry_ix(s, name) == i,
{
    assert(has_entry(s, name));
    let k = entry_ix(s, name);
    if k != i {
        if k < i {
            assert(s[k].name@ != s[i].name@);
        } else {
            assert(s[i].name@ != s[k].name@);
        }
    }
}

/// Every `required_by` set is non-empty, and each requester is either the
/// literal `root` or the name of another lock entry.
pub open spec fn lock_consistent(l: LockFile) -> bool {
    forall|i: int|
        0 <= i < l.packages@.len() ==> ({
            let rb = (#[trigger] l.packages@[i]).required_by.deep_view();
            &&& rb.len() > 0
            &&& forall|j: int|
                0 <= j < rb.len() ==> rb[j] == "root"@ || has_entry(l.packages@, rb[j])
        })
}

/// The entry's dependency map declares this name.
pub open spec fn entry_declares(e: LockedPackage, n: Seq<char>) -> bool {
    match e.dependencies {
        Option::Some(dm) => exists|k: int| 0 <= k < dm@.len() && (#[trigger] dm@[k].0@) == n,
        Option::None => false,
    }
}

/// Reverse-dependency edges agree with the recorded dependency maps: every
/// requester of an entry, other than the literal `root`, is itself an entry
/// whose dependency map declares the required entry. Locks the installer
/// builds have this shape; a hand-edited file may not.
pub open spec fn edges_match(l: LockFile) -> bool {
    forall|e: int, b: int|
        0 <= e < l.packages@.len() && 0 <= b < l.packages@[e].required_by@.len() ==> ({
            let rb = (#[trigger] l.packages@[e].required_by@[b])@;
            rb == "root"@ || (has_entry(l.packages@, rb) && entry_declares(
                entry_of(l.packages@, rb),
                l.packages@[e].name@,
            ))
        })
}

/// No requester set mentions `r`.
pub open spec fn rb_clean(s: Seq<LockedPackage>, r: Seq<char>) -> bool {
    forall|e: int, b: int|
        0 <= e < s.len() && 0 <= b < s[e].required_by@.len() ==> (
        #[trigger] s[e].required_by@[b])@ != r
}

/// `post` is `pre` with entries possibly dropped and requester sets possibly
/// thinned: every surviving entry keeps its name and dependency map, and its
/// requesters come from its old set.
pub open spec fn lock_shrinks(pre: Seq<LockedPackage>, post: Seq<LockedPackage>) -> bool {
    forall|e: int|
        0 <= e < post.len() ==> ({
            let n = (#[trigger] post[e]).name@;
            &&& has_entry(pre, n)
            &&& post[e].dependencies == entry_of(pre, n).dependencies
            &&& forall|b: int|
                0 <= b < post[e].required_by@.len() ==> entry_of(
                    pre,
                    n,
                ).required_by.deep_view().contains((#[trigger] post[e].required_by@[b])@)
        })
}

/// Shrinkage is reflexive on a well-formed lock.
pub proof fn lemma_shrinks_refl(s: Seq<LockedPackage>)
    requires
        wf_entries(s),
    ensures
        lock_shrinks(s, s),
{
    assert forall|e: int|
        0 <= e < s.len() implies ({
        let n = (#[trigger] s[e]).name@;
        &&& has_entry(s, n)
        &&& s[e].dependencies == entry_of(s, n).dependencies
        &&& forall|b: int|
            0 <= b < s[e].required_by@.len() ==> entry_of(s, n).required_by.deep_view().contains(
                (#[trigger] s[e].required_by@[b])@,
            )
    }) by {
        lemma_entry_ix_unique(s, s[e].name@, e);
        assert forall|b: int|
            0 <= b < s[e].required_by@.len() implies entry_of(
            s,
            s[e].name@,
        ).required_by.deep_view().contains((#[trigger] s[e].required_by@[b])@) by {
            assert(s[e].required_by.deep_view()[b] == s[e].required_by@[b]@);
        }
    }
}

/// Shrinkage composes.
pub proof fn lemma_shrinks_trans(a: Seq<LockedPackage>, b: Seq<LockedPackage>, c: Seq<LockedPackage>)
    requires
        wf_entries(a),
        wf_entries(b),
        lock_shrinks(a, b),
        lock_shrinks(b, c),
    ensures
        lock_shrinks(a, c),
{
    assert forall|e: int|
        0 <= e < c.len() implies ({
        let n = (#[trigger] c[e]).name@;
        &&& has_entry(a, n)
        &&& c[e].dependencies == entry_of(a, n).dependencies
        &&& forall|bb: int|
            0 <= bb < c[e].required_by@.len() ==> entry_of(a, n).required_by.deep_view().contains(
                (#[trigger] c[e].required_by@[bb])@,
            )
    }) by {
        let n = c[e].name@;
        assert(has_entry(b, n));
        let ib = entry_ix(b, n);
        assert(b[ib].name@ == n);
        assert(has_entry(a, b[ib].name@));
        assert(b[ib].dependencies == entry_of(a, b[ib].name@).dependencies);
        assert forall|bb: int|
            0 <= bb < c[e].required_by@.len() implies entry_of(
            a,
            n,
        ).required_by.deep_view().contains((#[trigger] c[e].required_by@[bb])@) by {
            let x = c[e].required_by@[bb]@;
            assert(entry_of(b, n).required_by.deep_view().contains(x));
            let k = choose|k: int|
                0 <= k < entry_of(b, n).required_by.deep_view().len() && entry_of(
                    b,
                    n,
                ).required_by.deep_view()[k] == x;
            assert(b[ib].required_by@[k]@ == x);
            assert(entry_of(a, b[ib].name@).required_by.deep_view().contains(
                b[ib].required_by@[k]@,
            ));
        }
    }
}

/// Shrinkage cannot reintroduce a requester that was gone.
pub proof fn lemma_shrink_preserves_clean(pre: Seq<LockedPackage>, post: Seq<LockedPackage>, r: Seq<char>)
    requires
        lock_shrinks(pre, post),
        rb_clean(pre, r),
    ensures
        rb_clean(post, r),
{
    assert forall|e: int, b: int|
        0 <= e < post.len() && 0 <= b < post[e].required_by@.len() implies (
    #[trigger] post[e].required_by@[b])@ != r by {
        let n = post[e].name@;
        let x = post[e].required_by@[b]@;
        assert(entry_of(pre, n).required_by.deep_view().contains(x));
        let k = choose|k: int|
            0 <= k < entry_of(pre, n).required_by.deep_view().len() && entry_of(
                pre,
                n,
            ).required_by.deep_view()[k] == x;
        let ip = entry_ix(pre, n);
        assert(pre[ip].required_by@[k]@ == x);
    }
}

impl LockFile {
    /// An empty lock at the current schema version.
    pub fn new() -> (r: Self)
        ensures
            r.version@ == "1.0.0"@,
            r.packages@.len() == 0,
            wf_lock(r),
            lock_consistent(r),
    {
        LockFile { version: String::from_str("1.0.0"), packages: Vec::new() }
    }

    /// Index of the entry named `name`, scanning in order.
    fn find_entry(&self, name: &str) -> (r: Option<usize>)
        ensures
            match r {
                Some(i) => i < self.packages@.len() && self.packages@[i as int].name@ == name@,
                None => !has_entry(self.packages@, name@),
            },
    {
        let mut i: usize = 0;
        while i < self.packages.len()
            invariant
                i <= self.packages@.len(),
                forall|j: int| 0 <= j < i ==> (#[trigger] self.packages@[j].name@) != name@,
            decreases self.packages@.len() - i,
        {
            if string_eq(self.packages[i].name.as_str(), name) {
                return Some(i);
            }
            i = i + 1;
        }
        None
    }

    /// The entry named `name`, if any.
    pub fn get_entry(&self, name: &str) -> (r: Option<&LockedPackage>)
        requires
            wf_lock(*self),
        ensures
            match r {
                Some(e) => has_entry(self.packages@, name@) && *e == entry_of(
                    self.packages@,
                    name@,
                ),
                None => !has_entry(self.packages@, name@),
            },
    {
        match self.find_entry(name) {
            Some(i) => {
                proof {
                    lemma_entry_ix_unique(self.packages@, name@, i as int);
                }
                Some(&self.packages[i])
            },
            None => None,
        }
    }

    /// Inserts the package, or unions `required_by` into the existing entry.
    /// An existing entry keeps its version, URL, digest and dependency map;
    /// only its requester set can grow, and only by a requester it lacked.
    pub fn add_package(
        &mut self,
        name: &str,
        version: &str,
        resolved: &str,
        integrity: &str,
        dependencies: Option<Vec<(String, String)>>,
        required_by: &str,
    )
        requires
            wf_lock(*old(self)),
        ensures
            wf_lock(*final(self)),
            final(self).version == old(self).version,
            has_entry(final(self).packages@, name@),
            forall|n: Seq<char>|
                #[trigger] has_entry(final(self).packages@, n) <==> (has_entry(
                    old(self).packages@,
                    n,
                ) || n == name@),
            final(self).packages@.len() == (if has_entry(old(self).packages@, name@) {
                old(self).packages@.len()
            } else {
                old(self).packages@.len() + 1
            }),
            forall|j: int|
                0 <= j < old(self).packages@.len() && old(self).packages@[j].name@ != name@
                    ==> (#[trigger] final(self).packages@[j]) == old(self).packages@[j],
            ({
                let e = entry_of(final(self).packages@, name@);
                if has_entry(old(self).packages@, name@) {
                    let oe = entry_of(old(self).packages@, name@);
                    &&& entry_ix(final(self).packages@, name@) == entry_ix(
                        old(self).packages@,
                        name@,
                    )
                    &&& e.name == oe.name
                    &&& e.version == oe.version
                    &&& e.resolved == oe.resolved
                    &&& e.integrity == oe.integrity
                    &&& e.dependencies == oe.dependencies
                    &&& e.required_by.deep_view() == (if oe.required_by.deep_view().contains(
                        required_by@,
                    ) {
                        oe.required_by.deep_view()
                    } else {
                        oe.required_by.deep_view().push(required_by@)
                    })
                } else {
                    &&& entry_ix(final(self).packages@, name@) == old(self).packages@.len()
                    &&& e.name@ == name@
                    &&& e.version@ == version@
                    &&& e.resolved@ == resolved@
                    &&& e.integrity@ == integrity@
                    &&& e.dependencies == dependencies
                    &&& e.required_by.deep_view() == seq![required_by@]
                }
            }),
    {
        match self.find_entry(name) {
            None => {
                let mut rb: Vec<String> = Vec::new();
                rb.push(required_by.to_owned());
                let entry = LockedPackage {
                    name: name.to_owned(),
                    version: version.to_owned(),
                    resolved: resolved.to_owned(),
                    integrity: integrity.to_owned(),
                    dependencies,
                    required_by: rb,
                };
                let ghost olds = self.packages@;
                self.packages.push(entry);
                proof {
                    lemma_entry_ix_unique(self.packages@, name@, olds.len() as int);
                    assert(self.packages@[olds.len() as int].required_by.deep_view()
                        =~= seq![required_by@]);
                    assert forall|n: Seq<char>| #[trigger]
                        has_entry(self.packages@, n) <==> (has_entry(olds, n) || n == name@) by {
                        if has_entry(self.packages@, n) {
                            let i = choose|i: int|
                                0 <= i < self.packages@.len() && (#[trigger] self.packages@[i].name@)
                                    == n;
                            if i < olds.len() {
                                assert(olds[i].name@ == n);
                            }
                        }
                        if has_entry(olds, n) {
                            let i = choose|i: int|
                                0 <= i < olds.len() && (#[trigger] olds[i].name@) == n;
                            assert(self.packages@[i].name@ == n);
                        }
                        if n == name@ {
                            assert(self.packages@[olds.len() as int].name@ == n);
                        }
                    }
                }
            },
            Some(i) => {
                proof {
                    lemma_entry_ix_unique(self.packages@, name@, i as int);
                }
                let ghost olds = self.packages@;
                let mut entry = self.packages.remove(i);
                if !vec_contains_str(&entry.required_by, required_by) {
                    entry.required_by.push(required_by.to_owned());
                    proof {
                        assert(entry.required_by.deep_view() =~= olds[i as int
                            ].required_by.deep_view().push(required_by@));
                    }
                }
                self.packages.insert(i, entry);
                proof {
                    assert(self.packages@ =~= olds.update(i as int, self.packages@[i as int]));
                    lemma_entry_ix_unique(self.packages@, name@, i as int);
                    assert forall|n: Seq<char>| #[trigger]
                        has_entry(self.packages@, n) <==> (has_entry(olds, n) || n == name@) by {
                        if has_entry(self.packages@, n) {
                            let k = choose|k: int|
                                0 <= k < self.packages@.len() && (#[trigger] self.packages@[k].name@)
                                    == n;
                            if k == i {
                                assert(n == name@);
                            } else {
                                assert(olds[k].name@ == n);
                            }
                        }
                        if has_entry(olds, n) {
                            let k = choose|k: int|
                                0 <= k < olds.len() && (#[trigger] olds[k].name@) == n;
                            if k == i {
                                assert(self.packages@[k].name@ == n);
                            } else {
                                assert(self.packages@[k].name@ == n);
                            }
                        }
                    }
                }
            },
        }
    }

    /// Drops `required_by` from the entry's requester set; when the set
    /// empties, the whole entry is removed and `true` comes back.
    pub fn remove_package(&mut self, name: &str, required_by: &str) -> (removed: bool)
        requires
            wf_lock(*old(self)),
        ensures
            wf_lock(*final(self)),
            final(self).version == old(self).version,
            !has_entry(old(self).packages@, name@) ==> *final(self) == *old(self) && removed
                == false,
            has_entry(old(self).packages@, name@) ==> ({
                let ix = entry_ix(old(self).packages@, name@);
                let oe = old(self).packages@[ix];
                let rem = without(oe.required_by.deep_view(), required_by@);
                if rem.len() == 0 {
                    removed == true && final(self).packages@ == old(self).packages@.remove(ix)
                } else {
                    &&& removed == false
                    &&& final(self).packages@.len() == old(self).packages@.len()
                    &&& forall|j: int|
                        0 <= j < old(self).packages@.len() && j != ix ==> (
                        #[trigger] final(self).packages@[j]) == old(self).packages@[j]
                    &&& final(self).packages@[ix].name == oe.name
                    &&& final(self).packages@[ix].version == oe.version
                    &&& final(self).packages@[ix].resolved == oe.resolved
                    &&& final(self).packages@[ix].integrity == oe.integrity
                    &&& final(self).packages@[ix].dependencies == oe.dependencies
                    &&& final(self).packages@[ix].required_by.deep_view() == rem
                }
            }),
    {
        match self.find_entry(name) {
            None => false,
            Some(i) => {
                proof {
                    lemma_entry_ix_unique(self.packages@, name@, i as int);
                }
                let ghost olds = self.packages@;
                let mut entry = self.packages.remove(i);
                let filtered = remove_all_str(&entry.required_by, required_by);
                if filtered.len() == 0 {
                    true
                } else {
                    entry.required_by = filtered;
                    self.packages.insert(i, entry);
                    proof {
                        assert(self.packages@ =~= olds.update(i as int, self.packages@[i as int]));
                    }
                    false
                }
            },
        }
    }

    /// Decides lock consistency: every entry keeps at least one requester,
    /// and every requester is the literal `root` or another entry's name.
    pub fn is_consistent(&self) -> (r: bool)
        requires
            wf_lock(*self),
        ensures
            r == lock_consistent(*self),
    {
        let mut i: usize = 0;
        while i < self.packages.len()
            invariant
                wf_lock(*self),
                i <= self.packages@.len(),
                forall|e: int|
                    0 <= e < i ==> ({
                        let rb = (#[trigger] self.packages@[e]).required_by.deep_view();
                        &&& rb.len() > 0
                        &&& forall|j: int|
                            0 <= j < rb.len() ==> rb[j] == "root"@ || has_entry(
                                self.packages@,
                                rb[j],
                            )
                    }),
            decreases self.packages@.len() - i,
        {
            let rbs = &self.packages[i].required_by;
            if rbs.len() == 0 {
                return false;
            }
            let mut j: usize = 0;
            while j < rbs.len()
                invariant
                    wf_lock(*self),
                    i < self.packages@.len(),
                    rbs == &self.packages@[i as int].required_by,
                    j <= rbs@.len(),
                    forall|b: int|
                        0 <= b < j ==> ({
                            let rb = (#[trigger] rbs.deep_view()[b]);
                            rb == "root"@ || has_entry(self.packages@, rb)
                        }),
                decreases rbs@.len() - j,
            {
                let ok = string_eq(rbs[j].as_str(), "root") || self.find_entry(
                    rbs[j].as_str(),
                ).is_some();
                if !ok {
                    proof {
                        assert(rbs.deep_view()[j as int] == rbs@[j as int]@);
                        assert(!lock_consistent(*self));
                    }
                    return false;
                }
                j = j + 1;
            }
            i = i + 1;
        }
        proof {
            assert forall|e: int|
                0 <= e < self.packages@.len() implies ({
                let rb = (#[trigger] self.packages@[e]).required_by.deep_view();
                rb.len() > 0 && forall|j: int|
                    0 <= j < rb.len() ==> rb[j] == "root"@ || has_entry(self.packages@, rb[j])
            }) by {}
        }
        true
    }

    /// Read-only probe: what `remove_package` would do. Returns whether the
    /// entry would empty (or is absent), and the requesters that would remain.
    pub fn can_remove_package(&self, name: &str, required_by: &str) -> (r: (bool, Vec<String>))
        requires
            wf_lock(*self),
        ensures
            !has_entry(self.packages@, name@) ==> r.0 == true && r.1@.len() == 0,
            has_entry(self.packages@, name@) ==> ({
                let rem = without(
                    entry_of(self.packages@, name@).required_by.deep_view(),
                    required_by@,
                );
                r.1.deep_view() == rem && r.0 == (rem.len() == 0)
            }),
    {
        match self.find_entry(name) {
            None => (true, Vec::new()),
            Some(i) => {
                proof {
                    lemma_entry_ix_unique(self.packages@, name@, i as int);
                }
                let remaining = remove_all_str(&self.packages[i].required_by, required_by);
                let empty = remaining.len() == 0;
                (empty, remaining)
            },
        }
    }
}

/// Copies `v` without the occurrences of `x`.
pub fn remove_all_str(v: &Vec<String>, x: &str) -> (r: Vec<String>)
    ensures
        r.deep_view() == without(v.deep_view(), x@),
{
    let mut r: Vec<String> = Vec::new();
    let mut i: usize = 0;
    proof {
        reveal(Seq::filter);
        assert(v.deep_view().take(0) =~= Seq::<Seq<char>>::empty());
        assert(r.deep_view() =~= without(v.deep_view().take(0), x@));
    }
    while i < v.len()
        invariant
            i <= v.len(),
            r.deep_view() == without(v.deep_view().take(i as int), x@),
        decreases v.len() - i,
    {
        let ghost pre = v.deep_view().take(i as int);
        let ghost prev = r.deep_view();
        if !string_eq(v[i].as_str(), x) {
            r.push(v[i].clone());
            proof {
                assert(r.deep_view() =~= prev.push(v.deep_view()[i as int]));
            }
        }
        proof {
            lemma_without_push(pre, v.deep_view()[i as int], x@);
            assert(v.deep_view().take(i + 1) =~= pre.push(v.deep_view()[i as int]));
        }
        i = i + 1;
    }
    proof {
        assert(v.deep_view().take(v.len() as int) =~= v.deep_view());
    }
    r
}

} // verus!
