use vstd::prelude::*;

verus! {

/// One character is an ASCII decimal digit.
pub open spec fn is_digit_char(c: char) -> bool {
    48 <= c as u32 && c as u32 <= 57
}

/// Every character of `s` is an ASCII decimal digit.
pub open spec fn all_digits(s: Seq<char>) -> bool {
    forall|i: int| 0 <= i < s.len() ==> is_digit_char(s[i])
}

/// The pieces of `s` between occurrences of `sep`, in order. A string with no
/// separator is a single piece; `n` separators give `n + 1` pieces, so pieces
/// may be empty.
pub open spec fn split_on(s: Seq<char>, sep: char) -> Seq<Seq<char>>
    decreases s.len(),
{
    if s.len() == 0 {
        seq![Seq::<char>::empty()]
    } else if s[0] == sep {
        seq![Seq::<char>::empty()] + split_on(s.skip(1), sep)
    } else {
        let rest = split_on(s.skip(1), sep);
        seq![seq![s[0]] + rest[0]] + rest.skip(1)
    }
}

/// `split_on` always yields at least one piece.
pub proof fn lemma_split_nonempty(s: Seq<char>, sep: char)
    ensures
        split_on(s, sep).len() >= 1,
    decreases s.len(),
{
    if s.len() != 0 && s[0] != sep {
        lemma_split_nonempty(s.skip(1), sep);
    }
}

/// A separator-free string is one piece: itself.
pub proof fn lemma_split_no_sep(s: Seq<char>, sep: char)
    requires
        forall|j: int| 0 <= j < s.len() ==> s[j] != sep,
    ensures
        split_on(s, sep) == seq![s],
    decreases s.len(),
{
    if s.len() == 0 {
        assert(split_on(s, sep) =~~= seq![s]);
    } else {
        lemma_split_no_sep(s.skip(1), sep);
        assert(seq![s[0]] + s.skip(1) =~= s);
        assert(split_on(s, sep) =~~= seq![s]);
    }
}

/// Splitting at the first separator: the piece before it, then the split of
/// what follows it.
pub proof fn lemma_split_at_first_sep(s: Seq<char>, sep: char, p: int)
    requires
        0 <= p < s.len(),
        s[p] == sep,
        forall|j: int| 0 <= j < p ==> s[j] != sep,
    ensures
        split_on(s, sep) == seq![s.take(p)] + split_on(s.skip(p + 1), sep),
    decreases p,
{
    if p == 0 {
        assert(s.take(0) =~= Seq::<char>::empty());
        assert(split_on(s, sep) =~~= seq![s.take(0)] + split_on(s.skip(1), sep));
    } else {
        let t = s.skip(1);
        assert(t[p - 1] == sep);
        lemma_split_at_first_sep(t, sep, p - 1);
        lemma_split_nonempty(t.skip(p), sep);
        assert(seq![s[0]] + t.take(p - 1) =~= s.take(p));
        assert(t.skip(p) =~= s.skip(p + 1));
        assert(split_on(s, sep) =~~= seq![s.take(p)] + split_on(s.skip(p + 1), sep));
    }
}

/// Splits `s` at every occurrence of `sep`, like `str::split`.
pub fn split_str(s: &str, sep: char) -> (r: Vec<String>)
    ensures
        r.deep_view() == split_on(s@, sep),
        r.len() >= 1,
{
    let n = s.unicode_len();
    let mut r: Vec<String> = Vec::new();
    let mut start: usize = 0;
    let mut i: usize = 0;
    proof {
        assert(s@.skip(0) =~= s@);
        assert(r.deep_view() =~= Seq::<Seq<char>>::empty());
        assert(Seq::<Seq<char>>::empty() + split_on(s@, sep) =~= split_on(s@, sep));
    }
    while i < n
        invariant
            start <= i <= n,
            n == s@.len(),
            split_on(s@, sep) == r.deep_view() + split_on(s@.skip(start as int), sep),
            forall|j: int| start <= j < i ==> s@[j] != sep,
        decreases n - i,
    {
        if s.get_char(i) == sep {
            let piece = s.substring_char(start, i);
            let ghost prev = r.deep_view();
            let ghost tail = s@.skip(start as int);
            r.push(piece.to_owned());
            proof {
                lemma_split_at_first_sep(tail, sep, i - start);
                assert(tail.take(i - start) =~= s@.subrange(start as int, i as int));
                assert(tail.skip(i - start + 1) =~= s@.skip(i + 1));
                assert(r.deep_view() =~= prev.push(s@.subrange(start as int, i as int)));
                assert(r.deep_view() + split_on(s@.skip(i + 1), sep)
                    =~= prev + split_on(tail, sep));
            }
            start = i + 1;
        }
        i = i + 1;
    }
    let piece = s.substring_char(start, n);
    let ghost prev = r.deep_view();
    r.push(piece.to_owned());
    proof {
        lemma_split_no_sep(s@.skip(start as int), sep);
        assert(s@.skip(start as int) =~= s@.subrange(start as int, n as int));
        assert(r.deep_view() =~= prev.push(s@.subrange(start as int, n as int)));
        assert(r.deep_view() =~= prev + split_on(s@.skip(start as int), sep));
    }
    r
}

/// Character-level string equality.
pub fn string_eq(a: &str, b: &str) -> (r: bool)
    ensures
        r == (a@ == b@),
{
    let sa = a.to_owned();
    let sb = b.to_owned();
    sa == sb
}

/// Whether `needle`'s characters occur in the list.
pub fn vec_contains_str(v: &Vec<String>, needle: &str) -> (r: bool)
    ensures
        r == v.deep_view().contains(needle@),
{
    let mut i: usize = 0;
    while i < v.len()
        invariant
            i <= v.len(),
            forall|j: int| 0 <= j < i ==> v.deep_view()[j] != needle@,
        decreases v.len() - i,
    {
        if string_eq(v[i].as_str(), needle) {
            assert(v.deep_view()[i as int] == needle@);
            return true;
        }
        i = i + 1;
    }
    false
}

/// `prefix` is a prefix of `s`.
pub open spec fn spec_starts_with(s: Seq<char>, prefix: Seq<char>) -> bool {
    prefix.len() <= s.len() && s.take(prefix.len() as int) == prefix
}

/// Character-level prefix test.
pub fn str_starts_with(s: &str, prefix: &str) -> (r: bool)
    ensures
        r == spec_starts_with(s@, prefix@),
{
    let n = s.unicode_len();
    let p = prefix.unicode_len();
    if p > n {
        return false;
    }
    let mut i: usize = 0;
    while i < p
        invariant
            i <= p <= n,
            n == s@.len(),
            p == prefix@.len(),
            forall|j: int| 0 <= j < i ==> s@[j] == prefix@[j],
        decreases p - i,
    {
        if s.get_char(i) != prefix.get_char(i) {
            assert(s@.take(p as int)[i as int] != prefix@[i as int]);
            return false;
        }
        i = i + 1;
    }
    assert(s@.take(p as int) =~= prefix@);
    true
}

/// `suffix` is a suffix of `s`.
pub open spec fn spec_ends_with(s: Seq<char>, suffix: Seq<char>) -> bool {
    suffix.len() <= s.len() && s.skip(s.len() - suffix.len()) == suffix
}

/// Character-level suffix test.
pub fn str_ends_with(s: &str, suffix: &str) -> (r: bool)
    ensures
        r == spec_ends_with(s@, suffix@),
{
    let n = s.unicode_len();
    let p = suffix.unicode_len();
    if p > n {
        return false;
    }
    let mut i: usize = 0;
    while i < p
        invariant
            i <= p <= n,
            n == s@.len(),
            p == suffix@.len(),
            forall|j: int| 0 <= j < i ==> s@[n - p + j] == suffix@[j],
        decreases p - i,
    {
        if s.get_char(n - p + i) != suffix.get_char(i) {
            assert(s@.skip(n - p)[i as int] != suffix@[i as int]);
            return false;
        }
        i = i + 1;
    }
    assert(s@.skip(n - p) =~= suffix@);
    true
}

/// True when every character of `s` is an ASCII digit.
pub fn str_all_digits(s: &str) -> (r: bool)
    ensures
        r == all_digits(s@),
{
    let n = s.unicode_len();
    let mut i: usize = 0;
    while i < n
        invariant
            i <= n,
            n == s@.len(),
            forall|j: int| 0 <= j < i ==> is_digit_char(s@[j]),
        decreases n - i,
    {
        let c = s.get_char(i);
        let u = c as u32;
        if u < 48 || u > 57 {
            return false;
        }
        i = i + 1;
    }
    true
}

/// Copies a list of string pairs, preserving its character-level contents.
pub fn clone_pairs(v: &Vec<(String, String)>) -> (r: Vec<(String, String)>)
    ensures
        r.deep_view() == v.deep_view(),
{
    let mut r: Vec<(String, String)> = Vec::new();
    let mut i: usize = 0;
    while i < v.len()
        invariant
            i <= v.len(),
            r.deep_view() =~= v.deep_view().take(i as int),
        decreases v.len() - i,
    {
        let ghost prev = r.deep_view();
        r.push((v[i].0.clone(), v[i].1.clone()));
        proof {
            assert(r.deep_view() =~= prev.push(v.deep_view()[i as int]));
            assert(v.deep_view().take(i + 1) =~= prev.push(v.deep_view()[i as int]));
        }
        i = i + 1;
    }
    proof {
        assert(v.deep_view().take(v.len() as int) =~= v.deep_view());
    }
    r
}

/// Copies a list of strings, preserving its character-level contents.
pub fn clone_string_vec(v: &Vec<String>) -> (r: Vec<String>)
    ensures
        r.deep_view() == v.deep_view(),
{
    let mut r: Vec<String> = Vec::new();
    let mut i: usize = 0;
    while i < v.len()
        invariant
            i <= v.len(),
            r.deep_view() =~= v.deep_view().take(i as int),
        decreases v.len() - i,
    {
        let ghost prev = r.deep_view();
        r.push(v[i].clone());
        proof {
            assert(r.deep_view() =~= prev.push(v.deep_view()[i as int]));
            assert(v.deep_view().take(i + 1) =~= prev.push(v.deep_view()[i as int]));
        }
        i = i + 1;
    }
    proof {
        assert(v.deep_view().take(v.len() as int) =~= v.deep_view());
    }
    r
}

/// Copies an optional dependency map, preserving its contents.
pub fn clone_dep_map(d: &Option<Vec<(String, String)>>) -> (r: Option<Vec<(String, String)>>)
    ensures
        r.deep_view() == d.deep_view(),
{
    match d {
        Option::None => Option::None,
        Option::Some(v) => Option::Some(clone_pairs(v)),
    }
}

/// Copies an optional string, preserving its characters.
pub fn clone_opt_string(s: &Option<String>) -> (r: Option<String>)
    ensures
        r.deep_view() == s.deep_view(),
{
    match s {
        Option::None => Option::None,
        Option::Some(v) => Option::Some(v.clone()),
    }
}

/// Lexicographic order on character sequences, by scalar value; the empty
/// sequence comes first.
pub open spec fn lex_le(a: Seq<char>, b: Seq<char>) -> bool
    decreases a.len(),
{
    if a.len() == 0 {
        true
    } else if b.len() == 0 {
        false
    } else if (a[0] as u32) < (b[0] as u32) {
        true
    } else if (a[0] as u32) > (b[0] as u32) {
        false
    } else {
        lex_le(a.skip(1), b.skip(1))
    }
}

/// The order is total.
pub proof fn lemma_lex_total(a: Seq<char>, b: Seq<char>)
    ensures
        lex_le(a, b) || lex_le(b, a),
    decreases a.len(),
{
    if a.len() > 0 && b.len() > 0 && a[0] as u32 == b[0] as u32 {
        lemma_lex_total(a.skip(1), b.skip(1));
    }
}

/// The order is transitive.
pub proof fn lemma_lex_trans(a: Seq<char>, b: Seq<char>, c: Seq<char>)
    requires
        lex_le(a, b),
        lex_le(b, c),
    ensures
        lex_le(a, c),
    decreases a.len(),
{
    if a.len() > 0 && b.len() > 0 && c.len() > 0 && a[0] as u32 == b[0] as u32 && b[0] as u32
        == c[0] as u32 {
        lemma_lex_trans(a.skip(1), b.skip(1), c.skip(1));
    }
}

/// Character-level lexicographic comparison.
pub fn str_lex_le(a: &str, b: &str) -> (r: bool)
    ensures
        r == lex_le(a@, b@),
{
    let na = a.unicode_len();
    let nb = b.unicode_len();
    let mut i: usize = 0;
    proof {
        assert(a@.skip(0) =~= a@);
        assert(b@.skip(0) =~= b@);
    }
    while i < na && i < nb
        invariant
            i <= na,
            i <= nb,
            na == a@.len(),
            nb == b@.len(),
            lex_le(a@, b@) == lex_le(a@.skip(i as int), b@.skip(i as int)),
        decreases na - i,
    {
        let ca = a.get_char(i);
        let cb = b.get_char(i);
        proof {
            assert(a@.skip(i as int)[0] == a@[i as int]);
            assert(b@.skip(i as int)[0] == b@[i as int]);
            assert(a@.skip(i as int).skip(1) =~= a@.skip(i + 1));
            assert(b@.skip(i as int).skip(1) =~= b@.skip(i + 1));
        }
        if (ca as u32) < (cb as u32) {
            return true;
        }
        if (ca as u32) > (cb as u32) {
            return false;
        }
        i = i + 1;
    }
    proof {
        assert(a@.skip(i as int).len() == na - i);
        assert(b@.skip(i as int).len() == nb - i);
    }
    i >= na
}

/// Copies `v` into ascending order of its keys, keeping exactly the same
/// pairs.
pub fn sort_pairs_by_name(v: &Vec<(String, String)>) -> (r: Vec<(String, String)>)
    ensures
        r.deep_view().to_multiset() == v.deep_view().to_multiset(),
        forall|i: int, j: int|
            0 <= i < j < r.deep_view().len() ==> lex_le(
                (#[trigger] r.deep_view()[i]).0,
                (#[trigger] r.deep_view()[j]).0,
            ),
{
    let mut out: Vec<(String, String)> = Vec::new();
    proof {
        assert(out.deep_view() =~= v.deep_view().take(0));
    }
    let mut i: usize = 0;
    while i < v.len()
        invariant
            i <= v.len(),
            v.deep_view().len() == v@.len(),
            out.deep_view().to_multiset() == v.deep_view().take(i as int).to_multiset(),
            forall|a: int, b: int|
                0 <= a < b < out.deep_view().len() ==> lex_le(
                    (#[trigger] out.deep_view()[a]).0,
                    (#[trigger] out.deep_view()[b]).0,
                ),
        decreases v.len() - i,
    {
        let ghost pre = out.deep_view();
        let ghost xm = v.deep_view()[i as int];
        proof {
            assert(xm == (v@[i as int].0@, v@[i as int].1@));
        }
        let mut pos: usize = 0;
        while pos < out.len() && str_lex_le(out[pos].0.as_str(), v[i].0.as_str())
            invariant
                out.deep_view() == pre,
                out.deep_view().len() == out@.len(),
                xm == (v@[i as int].0@, v@[i as int].1@),
                i < v@.len(),
                pos <= out@.len(),
                forall|q: int| 0 <= q < pos ==> lex_le((#[trigger] pre[q]).0, xm.0),
            decreases out@.len() - pos,
        {
            pos = pos + 1;
        }
        proof {
            if pos < out@.len() {
                lemma_lex_total(pre[pos as int].0, xm.0);
            }
            assert forall|q: int| pos <= q < pre.len() implies lex_le(
                xm.0,
                (#[trigger] pre[q]).0,
            ) by {
                if q > pos {
                    lemma_lex_trans(xm.0, pre[pos as int].0, pre[q].0);
                }
            }
        }
        out.insert(pos, (v[i].0.clone(), v[i].1.clone()));
        proof {
            let now = out.deep_view();
            assert(now =~= pre.insert(pos as int, xm));
            pre.insert_ensures(pos as int, xm);
            assert forall|a: int, b: int|
                0 <= a < b < now.len() implies lex_le(
                (#[trigger] now[a]).0,
                (#[trigger] now[b]).0,
            ) by {
                if a < pos && b < pos {
                    assert(now[a] == pre[a] && now[b] == pre[b]);
                } else if a < pos && b == pos {
                    assert(now[a] == pre[a] && now[b] == xm);
                } else if a < pos {
                    assert(now[a] == pre[a] && now[b] == pre[b - 1]);
                } else if a == pos && b > pos {
                    assert(now[a] == xm && now[b] == pre[b - 1]);
                } else if a > pos {
                    assert(now[a] == pre[a - 1] && now[b] == pre[b - 1]);
                }
            }
            // The inserted copy joins the multiset exactly once.
            now.to_multiset_ensures();
            assert(now.remove(pos as int) =~= pre);
            assert(now[pos as int] == xm);
            assert(pre.to_multiset() =~= now.to_multiset().remove(xm));
            assert(now.contains(xm));
            assert(now.to_multiset().count(xm) > 0);
            assert(now.to_multiset() =~= pre.to_multiset().insert(xm));
            v.deep_view().take(i as int).to_multiset_ensures();
            assert(v.deep_view().take(i + 1) =~= v.deep_view().take(i as int).push(xm));
            assert(v.deep_view().take(i + 1).to_multiset() =~= v.deep_view().take(
                i as int,
            ).to_multiset().insert(xm));
        }
        i = i + 1;
    }
    proof {
        assert(v.deep_view().take(v@.len() as int) =~= v.deep_view());
    }
    out
}

/// Some pair carries this key.
pub open spec fn has_pair(m: Seq<(String, String)>, k: Seq<char>) -> bool {
    exists|i: int| 0 <= i < m.len() && (#[trigger] m[i].0@) == k
}

/// The index of the pair with this key.
pub open spec fn pair_ix(m: Seq<(String, String)>, k: Seq<char>) -> int {
    choose|i: int| 0 <= i < m.len() && (#[trigger] m[i].0@) == k
}

/// The value stored under this key.
pub open spec fn pair_val(m: Seq<(String, String)>, k: Seq<char>) -> Seq<char> {
    m[pair_ix(m, k)].1@
}

/// Keys of a pair list are pairwise distinct.
pub open spec fn wf_pairs(m: Seq<(String, String)>) -> bool {
    forall|i: int, j: int| 0 <= i < j < m.len() ==> (#[trigger] m[i].0@) != (#[trigger] m[j].0@)
}

/// Under distinct keys, a hit is the unique witness.
pub proof fn lemma_pair_ix_unique(m: Seq<(String, String)>, k: Seq<char>, i: int)
    requires
        wf_pairs(m),
        0 <= i < m.len(),
        m[i].0@ == k,
    ensures
        has_pair(m, k),
        pair_ix(m, k) == i,
{
    assert(has_pair(m, k));
    let x = pair_ix(m, k);
    if x != i {
        if x < i {
            assert(m[x].0@ != m[i].0@);
        } else {
            assert(m[i].0@ != m[x].0@);
        }
    }
}

/// Inserts or replaces the value under `name`, keeping keys unique and the
/// order of other pairs.
pub fn upsert_pair(m: &mut Vec<(String, String)>, name: &str, version: &str)
    requires
        wf_pairs(old(m)@),
    ensures
        wf_pairs(final(m)@),
        has_pair(final(m)@, name@),
        pair_val(final(m)@, name@) == version@,
        forall|k: Seq<char>|
            #[trigger] has_pair(final(m)@, k) <==> (has_pair(old(m)@, k) || k == name@),
        forall|j: int|
            0 <= j < old(m)@.len() && old(m)@[j].0@ != name@ ==> (#[trigger] final(m)@[j]) == old(
                m,
            )@[j],
{
    let ghost pre = m@;
    let mut i: usize = 0;
    while i < m.len()
        invariant
            pre == old(m)@,
            m@ == pre,
            wf_pairs(pre),
            i <= pre.len(),
            forall|j: int| 0 <= j < i ==> (#[trigger] pre[j].0@) != name@,
        decreases pre.len() - i,
    {
        if string_eq(m[i].0.as_str(), name) {
            proof {
                lemma_pair_ix_unique(pre, name@, i as int);
            }
            let _old = m.remove(i);
            m.insert(i, (name.to_owned(), version.to_owned()));
            proof {
                assert(m@ =~= pre.update(i as int, m@[i as int]));
                lemma_pair_ix_unique(m@, name@, i as int);
                assert forall|k: Seq<char>| #[trigger]
                    has_pair(m@, k) <==> (has_pair(pre, k) || k == name@) by {
                    if has_pair(m@, k) {
                        let x = choose|x: int| 0 <= x < m@.len() && (#[trigger] m@[x].0@) == k;
                        if x != i {
                            assert(pre[x].0@ == k);
                        }
                    }
                    if has_pair(pre, k) {
                        let x = choose|x: int| 0 <= x < pre.len() && (#[trigger] pre[x].0@) == k;
                        assert(m@[x].0@ == k);
                    }
                }
            }
            return ;
        }
        i = i + 1;
    }
    m.push((name.to_owned(), version.to_owned()));
    proof {
        lemma_pair_ix_unique(m@, name@, pre.len() as int);
        assert forall|k: Seq<char>| #[trigger]
            has_pair(m@, k) <==> (has_pair(pre, k) || k == name@) by {
            if has_pair(m@, k) {
                let x = choose|x: int| 0 <= x < m@.len() && (#[trigger] m@[x].0@) == k;
                if x < pre.len() {
                    assert(pre[x].0@ == k);
                }
            }
            if has_pair(pre, k) {
                let x = choose|x: int| 0 <= x < pre.len() && (#[trigger] pre[x].0@) == k;
                assert(m@[x].0@ == k);
            }
        }
    }
}

/// Removes the pair under `name`, if present, keeping the order of the rest.
pub fn remove_pair(m: &mut Vec<(String, String)>, name: &str)
    requires
        wf_pairs(old(m)@),
    ensures
        wf_pairs(final(m)@),
        !has_pair(final(m)@, name@),
        forall|k: Seq<char>|
            #[trigger] has_pair(final(m)@, k) <==> (has_pair(old(m)@, k) && k != name@),
        !has_pair(old(m)@, name@) ==> final(m)@ == old(m)@,
        has_pair(old(m)@, name@) ==> final(m)@ == old(m)@.remove(pair_ix(old(m)@, name@)),
{
    let ghost pre = m@;
    let mut i: usize = 0;
    while i < m.len()
        invariant
            pre == old(m)@,
            m@ == pre,
            wf_pairs(pre),
            i <= pre.len(),
            forall|j: int| 0 <= j < i ==> (#[trigger] pre[j].0@) != name@,
        decreases pre.len() - i,
    {
        if string_eq(m[i].0.as_str(), name) {
            proof {
                lemma_pair_ix_unique(pre, name@, i as int);
            }
            let _old = m.remove(i);
            proof {
                assert forall|k: Seq<char>| #[trigger]
                    has_pair(m@, k) <==> (has_pair(pre, k) && k != name@) by {
                    if has_pair(m@, k) {
                        let x = choose|x: int| 0 <= x < m@.len() && (#[trigger] m@[x].0@) == k;
                        if x < i {
                            assert(pre[x].0@ == k);
                        } else {
                            assert(pre[x + 1].0@ == k);
                        }
                        if k == name@ {
                            if x < i {
                                lemma_pair_ix_unique(pre, name@, x);
                            } else {
                                lemma_pair_ix_unique(pre, name@, x + 1);
                            }
                        }
                    }
                    if has_pair(pre, k) && k != name@ {
                        let x = choose|x: int| 0 <= x < pre.len() && (#[trigger] pre[x].0@) == k;
                        if x < i {
                            assert(m@[x].0@ == k);
                        } else {
                            assert(m@[x - 1].0@ == k);
                        }
                    }
                }
                assert(has_pair(pre, name@));
                assert(pair_ix(pre, name@) == i as int);
                assert(m@ == pre.remove(i as int));
                assert(!has_pair(m@, name@));
            }
            return ;
        }
        i = i + 1;
    }
}

/// The key `name@version` under which a concrete package version is indexed.
pub open spec fn key_of(name: Seq<char>, version: Seq<char>) -> Seq<char> {
    name + "@"@ + version
}

/// Builds the `name@version` index key.
pub fn make_key(name: &str, version: &str) -> (r: String)
    ensures
        r@ == key_of(name@, version@),
{
    let mut s = name.to_owned();
    s.append("@");
    s.append(version);
    s
}

} // verus!
