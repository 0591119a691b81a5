use vstd::prelude::*;
use vstd::string::StringSliceAdditionalSpecFns;
use crate::hashing::{sha1_hex, sha1_hex_of};
use crate::text::{lex_le, sort_pairs_by_name, string_eq};

verus! {

/// One package of a cached resolution tree: the concrete version, the
/// content-store object it resolved to, the registry digest, and its
/// declared dependency map.
pub struct ResolvedPackage {
    pub version: String,
    pub content_hash: String,
    pub integrity: String,
    pub dependencies: Option<Vec<(String, String)>>,
}

/// Character-level contents of a tree record.
pub ghost struct ResolvedModel {
    pub version: Seq<char>,
    pub content_hash: Seq<char>,
    pub integrity: Seq<char>,
    pub dependencies: Option<Seq<(Seq<char>, Seq<char>)>>,
}

impl View for ResolvedPackage {
    type V = ResolvedModel;

    open spec fn view(&self) -> ResolvedModel {
        ResolvedModel {
            version: self.version@,
            content_hash: self.content_hash@,
            integrity: self.integrity@,
            dependencies: self.dependencies.deep_view(),
        }
    }
}

/// A cached resolution: when it was computed, one record per package name,
/// and a digest over the whole tree that keys it in the store.
pub struct DependencyTree {
    pub resolved_at: i64,
    pub packages: Vec<(String, ResolvedPackage)>,
    pub tree_hash: String,
}

/// Some record carries this package name.
pub open spec fn has_tree_pkg(ps: Seq<(String, ResolvedPackage)>, n: Seq<char>) -> bool {
    exists|i: int| 0 <= i < ps.len() && (#[trigger] ps[i].0@) == n
}

/// Package names are pairwise distinct.
pub open spec fn wf_tree(t: DependencyTree) -> bool {
    forall|i: int, j: int|
        0 <= i < j < t.packages@.len() ==> (#[trigger] t.packages@[i].0@) != (
        #[trigger] t.packages@[j].0@)
}

/// The hash line of one record: its name followed by its version, content
/// hash and digest, exactly the bytes the hasher consumes for it.
pub open spec fn tree_line(e: (String, ResolvedPackage)) -> (Seq<char>, Seq<char>) {
    (e.0@, e.1.version@ + e.1.content_hash@ + e.1.integrity@)
}

/// Lines concatenated, name first then payload.
pub open spec fn spec_tree_doc(s: Seq<(Seq<char>, Seq<char>)>) -> Seq<char>
    decreases s.len(),
{
    if s.len() == 0 {
        Seq::empty()
    } else {
        spec_tree_doc(s.drop_last()) + s.last().0 + s.last().1
    }
}

/// `s` holds exactly the records' hash lines, in ascending name order.
pub open spec fn sorted_lines_of(
    s: Seq<(Seq<char>, Seq<char>)>,
    ps: Seq<(String, ResolvedPackage)>,
) -> bool {
    &&& s.to_multiset() == ps.map_values(|e: (String, ResolvedPackage)| tree_line(e)).to_multiset()
    &&& forall|i: int, j: int|
        0 <= i < j < s.len() ==> lex_le((#[trigger] s[i]).0, (#[trigger] s[j]).0)
}

impl DependencyTree {
    /// An empty tree stamped with the moment it was resolved, given as
    /// milliseconds since the epoch by the caller's clock.
    pub fn new(resolved_at: i64) -> (r: Self)
        ensures
            r.resolved_at == resolved_at,
            r.packages@.len() == 0,
            r.tree_hash@.len() == 0,
            wf_tree(r),
    {
        DependencyTree { resolved_at, packages: Vec::new(), tree_hash: String::new() }
    }

    /// Recomputes the tree digest: the SHA-1 over every record's name,
    /// version, content hash and digest, in ascending name order, so equal
    /// trees hash alike whatever order they were built in.
    pub fn calculate_tree_hash(&mut self)
        ensures
            final(self).packages == old(self).packages,
            final(self).resolved_at == old(self).resolved_at,
            final(self).tree_hash@.len() == 40,
            exists|s: Seq<(Seq<char>, Seq<char>)>|
                #![auto]
                sorted_lines_of(s, old(self).packages@) && final(self).tree_hash@
                    == sha1_hex_of(vstd::utf8::encode_utf8(spec_tree_doc(s))),
    {
        let mut lines: Vec<(String, String)> = Vec::new();
        proof {
            assert(self.packages@.take(0) =~= Seq::<(String, ResolvedPackage)>::empty());
            assert(lines.deep_view() =~= self.packages@.take(0).map_values(
                |e: (String, ResolvedPackage)| tree_line(e),
            ));
        }
        let mut i: usize = 0;
        while i < self.packages.len()
            invariant
                i <= self.packages@.len(),
                lines.deep_view() == self.packages@.take(i as int).map_values(
                    |e: (String, ResolvedPackage)| tree_line(e),
                ),
        decreases self.packages@.len() - i,
        {
            let e = &self.packages[i];
            let mut payload = e.1.version.clone();
            payload.append(e.1.content_hash.as_str());
            payload.append(e.1.integrity.as_str());
            let ghost prev = lines.deep_view();
            lines.push((e.0.clone(), payload));
            proof {
                assert(lines.deep_view() =~= prev.push(tree_line(self.packages@[i as int])));
                assert(self.packages@.take(i + 1) =~= self.packages@.take(i as int).push(
                    self.packages@[i as int],
                ));
                assert(self.packages@.take(i + 1).map_values(
                    |e: (String, ResolvedPackage)| tree_line(e),
                ) =~= prev.push(tree_line(self.packages@[i as int])));
            }
            i = i + 1;
        }
        proof {
            assert(self.packages@.take(self.packages@.len() as int) =~= self.packages@);
        }
        let sorted = sort_pairs_by_name(&lines);
        let mut doc = String::new();
        proof {
            assert(sorted.deep_view().take(0) =~= Seq::<(Seq<char>, Seq<char>)>::empty());
            assert(doc@ =~= spec_tree_doc(sorted.deep_view().take(0)));
        }
        let mut k: usize = 0;
        while k < sorted.len()
            invariant
                k <= sorted@.len(),
                sorted.deep_view().len() == sorted@.len(),
                doc@ == spec_tree_doc(sorted.deep_view().take(k as int)),
            decreases sorted@.len() - k,
        {
            let ghost pre = sorted.deep_view().take(k as int);
            let ghost cur = sorted.deep_view()[k as int];
            proof {
                assert(sorted.deep_view().take(k + 1) =~= pre.push(cur));
                assert(pre.push(cur).drop_last() =~= pre);
                assert(cur == (sorted@[k as int].0@, sorted@[k as int].1@));
            }
            doc.append(sorted[k].0.as_str());
            doc.append(sorted[k].1.as_str());
            proof {
                assert(doc@ =~= spec_tree_doc(sorted.deep_view().take(k + 1)));
            }
            k = k + 1;
        }
        proof {
            assert(sorted.deep_view().take(sorted@.len() as int) =~= sorted.deep_view());
        }
        let ds = doc.as_str();
        let digest = sha1_hex(ds.as_bytes());
        proof {
            assert(ds@ == doc@);
            assert(ds.spec_bytes() =~= vstd::utf8::encode_utf8(doc@));
            assert(sorted_lines_of(sorted.deep_view(), old(self).packages@));
        }
        self.tree_hash = digest;
    }

    /// Inserts or replaces one package's record, then refreshes the digest.
    pub fn add_package(
        &mut self,
        name: &str,
        version: &str,
        content_hash: &str,
        integrity: &str,
        dependencies: Option<Vec<(String, String)>>,
    )
        requires
            wf_tree(*old(self)),
        ensures
            wf_tree(*final(self)),
            has_tree_pkg(final(self).packages@, name@),
            forall|n: Seq<char>|
                #[trigger] has_tree_pkg(final(self).packages@, n) <==> (has_tree_pkg(
                    old(self).packages@,
                    n,
                ) || n == name@),
            final(self).tree_hash@.len() == 40,
    {
        let record = ResolvedPackage {
            version: version.to_owned(),
            content_hash: content_hash.to_owned(),
            integrity: integrity.to_owned(),
            dependencies,
        };
        let ghost pre = self.packages@;
        let mut i: usize = 0;
        let mut replaced = false;
        while i < self.packages.len() && !replaced
            invariant
                pre == old(self).packages@,
                wf_tree(*old(self)),
                self.resolved_at == old(self).resolved_at,
                i <= pre.len(),
                !replaced ==> self.packages@ == pre && (forall|j: int|
                    0 <= j < i ==> (#[trigger] pre[j].0@) != name@),
                replaced ==> ({
                    &&& self.packages@.len() == pre.len()
                    &&& wf_tree(*self)
                    &&& has_tree_pkg(self.packages@, name@)
                    &&& forall|n: Seq<char>|
                        #[trigger] has_tree_pkg(self.packages@, n) <==> (has_tree_pkg(pre, n) || n
                            == name@)
                }),
            decreases pre.len() - i + (if replaced {
                0int
            } else {
                1int
            }),
        {
            if string_eq(self.packages[i].0.as_str(), name) {
                let _old_entry = self.packages.remove(i);
                let pair = (name.to_owned(), record_clone(&record));
                self.packages.insert(i, pair);
                proof {
                    assert(self.packages@ =~= pre.update(i as int, self.packages@[i as int]));
                    assert(self.packages@[i as int].0@ == name@);
                    assert forall|n: Seq<char>| #[trigger]
                        has_tree_pkg(self.packages@, n) <==> (has_tree_pkg(pre, n) || n
                            == name@) by {
                        if has_tree_pkg(self.packages@, n) {
                            let x = choose|x: int|
                                0 <= x < self.packages@.len() && (#[trigger] self.packages@[x].0@)
                                    == n;
                            if x != i {
                                assert(pre[x].0@ == n);
                            }
                        }
                        if has_tree_pkg(pre, n) {
                            let x = choose|x: int|
                                0 <= x < pre.len() && (#[trigger] pre[x].0@) == n;
                            assert(self.packages@[x].0@ == n);
                        }
                    }
                }
                replaced = true;
            } else {
                i = i + 1;
            }
        }
        if !replaced {
            self.packages.push((name.to_owned(), record));
            proof {
                assert(self.packages@[pre.len() as int].0@ == name@);
                assert forall|n: Seq<char>| #[trigger]
                    has_tree_pkg(self.packages@, n) <==> (has_tree_pkg(pre, n) || n == name@) by {
                    if has_tree_pkg(self.packages@, n) {
                        let x = choose|x: int|
                            0 <= x < self.packages@.len() && (#[trigger] self.packages@[x].0@)
                                == n;
                        if x < pre.len() {
                            assert(pre[x].0@ == n);
                        }
                    }
                    if has_tree_pkg(pre, n) {
                        let x = choose|x: int| 0 <= x < pre.len() && (#[trigger] pre[x].0@) == n;
                        assert(self.packages@[x].0@ == n);
                    }
                }
                assert forall|a: int, b: int|
                    0 <= a < b < self.packages@.len() implies (#[trigger] self.packages@[a].0@)
                    != (#[trigger] self.packages@[b].0@) by {
                    if b == pre.len() {
                        assert(pre[a].0@ != name@);
                    }
                }
            }
        }
        self.calculate_tree_hash();
    }
}

/// A field-for-field copy of one tree record.
fn record_clone(r: &ResolvedPackage) -> (c: ResolvedPackage)
    ensures
        c@ == r@,
{
    ResolvedPackage {
        version: r.version.clone(),
        content_hash: r.content_hash.clone(),
        integrity: r.integrity.clone(),
        dependencies: crate::text::clone_dep_map(&r.dependencies),
    }
}

} // verus!
