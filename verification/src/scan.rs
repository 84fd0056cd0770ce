//! The flat variant of the planner: deduplication by the fingerprints it
//! is handed alone, every kept file placed directly under the output
//! directory.

use vstd::prelude::*;

use crate::actions::pairs_view;
use crate::actions::PathError;
use crate::digest::bytes_eq;
use crate::pathstr::basename;
use crate::pathstr::basename_of;
use crate::pathstr::joined;
use crate::pathstr::path_join;

verus! {

/// One scanned file: its path and its content fingerprint.
pub type ScanPair = (String, Vec<u8>);

/// A batch of scanned files, in scan order.
pub type ScanData = Vec<ScanPair>;

/// An ordered list of planned copies: source path and destination path.
pub type FileList = Vec<(String, String)>;

/// The views of scanned (path, fingerprint) pairs.
pub open spec fn scan_view(s: Seq<(String, Vec<u8>)>) -> Seq<(Seq<char>, Seq<u8>)> {
    s.map_values(|p: (String, Vec<u8>)| (p.0@, p.1@))
}

/// The rest of a flat planning run from entry `i`: the first file of each
/// fingerprint is kept and placed at `out_dir/<name>`, later ones are
/// dropped; a kept file with no extractable file name aborts the run.
pub open spec fn flat_rec(
    s: Seq<(Seq<char>, Seq<u8>)>,
    outdir: Seq<char>,
    i: int,
    seen: Set<Seq<u8>>,
    acc: Seq<(Seq<char>, Seq<char>)>,
) -> Result<Seq<(Seq<char>, Seq<char>)>, Seq<char>>
    decreases s.len() - i,
{
    if i < 0 || i >= s.len() {
        Ok(acc)
    } else if seen.contains(s[i].1) {
        flat_rec(s, outdir, i + 1, seen, acc)
    } else if basename_of(s[i].0).len() == 0 {
        Err(s[i].0)
    } else {
        flat_rec(
            s,
            outdir,
            i + 1,
            seen.insert(s[i].1),
            acc.push((s[i].0, joined(outdir, basename_of(s[i].0)))),
        )
    }
}

/// The flat plan of a scanned batch.
pub open spec fn flat_plan_of(s: Seq<(Seq<char>, Seq<u8>)>, outdir: Seq<char>) -> Result<
    Seq<(Seq<char>, Seq<char>)>,
    Seq<char>,
> {
    flat_rec(s, outdir, 0, Set::empty(), Seq::empty())
}

// ---------------------------------------------------------------------------
// Scan order
// ---------------------------------------------------------------------------

/// Lexicographic comparison of two paths from position `i` on.
pub open spec fn str_le_from(a: Seq<char>, b: Seq<char>, i: int) -> bool
    decreases a.len() - i,
{
    if i >= a.len() {
        true
    } else if i >= b.len() {
        false
    } else if a[i] == b[i] {
        str_le_from(a, b, i + 1)
    } else {
        a[i] < b[i]
    }
}

/// Lexicographic order on paths, by character scalar value — the order in
/// which files are fed to the planner, so that which duplicate becomes the
/// kept representative is reproducible.
pub open spec fn str_le(a: Seq<char>, b: Seq<char>) -> bool {
    str_le_from(a, b, 0)
}

/// Any two paths are ordered one way or the other.
pub proof fn lemma_str_le_total(a: Seq<char>, b: Seq<char>, i: int)
    requires
        0 <= i,
    ensures
        str_le_from(a, b, i) || str_le_from(b, a, i),
    decreases a.len() - i,
{
    if i < a.len() && i < b.len() && a[i] == b[i] {
        lemma_str_le_total(a, b, i + 1);
    }
}

/// The order is reflexive.
pub proof fn lemma_str_le_refl(a: Seq<char>, i: int)
    requires
        0 <= i,
    ensures
        str_le_from(a, a, i),
    decreases a.len() - i,
{
    if i < a.len() {
        lemma_str_le_refl(a, i + 1);
    }
}

/// The order is antisymmetric: paths ordered both ways agree from `i` on.
pub proof fn lemma_str_le_antisym(a: Seq<char>, b: Seq<char>, i: int)
    requires
        0 <= i <= a.len(),
        i <= b.len(),
        str_le_from(a, b, i),
        str_le_from(b, a, i),
    ensures
        a.len() == b.len(),
        forall|j: int| i <= j < a.len() ==> a[j] == b[j],
    decreases a.len() - i,
{
    if i < a.len() {
        lemma_str_le_antisym(a, b, i + 1);
    }
}

/// The order is transitive.
pub proof fn lemma_str_le_trans(a: Seq<char>, b: Seq<char>, c: Seq<char>, i: int)
    requires
        0 <= i,
        str_le_from(a, b, i),
        str_le_from(b, c, i),
    ensures
        str_le_from(a, c, i),
    decreases a.len() - i,
{
    if i < a.len() && i < b.len() && i < c.len() && a[i] == b[i] && b[i] == c[i] {
        lemma_str_le_trans(a, b, c, i + 1);
    }
}

/// Compares two paths lexicographically.
fn str_le_exec(a: &str, b: &str) -> (r: bool)
    ensures
        r == str_le(a@, b@),
{
    let na = a.unicode_len();
    let nb = b.unicode_len();
    let mut i: usize = 0;
    loop
        invariant
            i <= na,
            i <= nb,
            na == a@.len(),
            nb == b@.len(),
            str_le(a@, b@) == str_le_from(a@, b@, i as int),
        decreases na - i,
    {
        if i == na {
            return true;
        }
        if i == nb {
            return false;
        }
        let ca = a.get_char(i);
        let cb = b.get_char(i);
        if ca != cb {
            return ca < cb;
        }
        i = i + 1;
    }
}

/// Paths in lexicographic order.
pub open spec fn paths_sorted(v: Seq<String>) -> bool {
    forall|m1: int, m2: int|
        0 <= m1 < m2 < v.len() ==> str_le((#[trigger] v[m1])@, (#[trigger] v[m2])@)
}

/// Path views in lexicographic order.
pub open spec fn views_sorted(v: Seq<Seq<char>>) -> bool {
    forall|m1: int, m2: int| 0 <= m1 < m2 < v.len() ==> str_le(#[trigger] v[m1], #[trigger] v[m2])
}

/// The views of a vector of paths.
pub open spec fn path_views(v: Seq<String>) -> Seq<Seq<char>> {
    v.map_values(|s: String| s@)
}

/// Sorted paths have sorted views.
pub proof fn lemma_paths_sorted_views(v: Seq<String>)
    requires
        paths_sorted(v),
    ensures
        views_sorted(path_views(v)),
{
    assert forall|m1: int, m2: int| 0 <= m1 < m2 < path_views(v).len() implies str_le(
        #[trigger] path_views(v)[m1],
        #[trigger] path_views(v)[m2],
    ) by {
        assert(path_views(v)[m1] == v[m1]@ && path_views(v)[m2] == v[m2]@);
        assert(str_le(v[m1]@, v[m2]@));
    }
}

/// There is one sorted order: two sorted sequences holding the same paths
/// with the same multiplicities are equal, position for position.  With
/// this, the scan order — and through the planner's determinism the whole
/// plan — is a function of the scanned file set alone.
pub proof fn lemma_sorted_views_unique(v1: Seq<Seq<char>>, v2: Seq<Seq<char>>)
    requires
        views_sorted(v1),
        views_sorted(v2),
        v1.to_multiset() == v2.to_multiset(),
    ensures
        v1 == v2,
    decreases v1.len(),
{
    broadcast use vstd::seq_lib::group_to_multiset_ensures;

    if v1.len() == 0 {
        assert(v1.to_multiset().len() == 0);
        assert(v2.len() == 0);
        assert(v1 =~= v2);
    } else {
        assert(v1.to_multiset().len() == v1.len());
        assert(v2.to_multiset().len() == v2.len());
        assert(v2.len() == v1.len());
        // each head is in the other sequence, and each head is a minimum,
        // so the heads are equal
        assert(v1.to_multiset().count(v1[0]) > 0);
        assert(v2.contains(v1[0]));
        let k2 = choose|k: int| 0 <= k < v2.len() && v2[k] == v1[0];
        assert(v2.to_multiset().count(v2[0]) > 0);
        assert(v1.contains(v2[0]));
        let k1 = choose|k: int| 0 <= k < v1.len() && v1[k] == v2[0];
        if k2 > 0 {
            assert(str_le(v2[0], v2[k2]));
        } else {
            lemma_str_le_refl(v2[0], 0);
        }
        if k1 > 0 {
            assert(str_le(v1[0], v1[k1]));
        } else {
            lemma_str_le_refl(v1[0], 0);
        }
        lemma_str_le_antisym(v1[0], v2[0], 0);
        assert(v1[0] =~= v2[0]);
        // the tails hold the same paths and are sorted, so they are equal
        let t1 = v1.remove(0);
        let t2 = v2.remove(0);
        assert(t1.to_multiset() == t2.to_multiset());
        assert forall|m1: int, m2: int| 0 <= m1 < m2 < t1.len() implies str_le(
            #[trigger] t1[m1],
            #[trigger] t1[m2],
        ) by {
            assert(t1[m1] == v1[m1 + 1] && t1[m2] == v1[m2 + 1]);
        }
        assert forall|m1: int, m2: int| 0 <= m1 < m2 < t2.len() implies str_le(
            #[trigger] t2[m1],
            #[trigger] t2[m2],
        ) by {
            assert(t2[m1] == v2[m1 + 1] && t2[m2] == v2[m2 + 1]);
        }
        lemma_sorted_views_unique(t1, t2);
        assert forall|j: int| 0 <= j < v1.len() implies v1[j] == v2[j] by {
            if j > 0 {
                assert(t1[j - 1] == v1[j]);
                assert(t2[j - 1] == v2[j]);
            }
        }
        assert(v1 =~= v2);
    }
}

/// Sorts paths lexicographically, keeping exactly the same paths.  The
/// planner is fed paths in this order, which makes the scan order — and
/// with it the whole plan — a function of the file tree alone.
pub fn sort_paths(v: &mut Vec<String>)
    ensures
        final(v)@.len() == old(v)@.len(),
        paths_sorted(final(v)@),
        views_sorted(path_views(final(v)@)),
        final(v)@.to_multiset() == old(v)@.to_multiset(),
        path_views(final(v)@).to_multiset() == path_views(old(v)@).to_multiset(),
{
    let mut i: usize = 1;
    while i < v.len()
        invariant
            i >= 1,
            v@.len() == old(v)@.len(),
            v@.to_multiset() == old(v)@.to_multiset(),
            path_views(v@).to_multiset() == path_views(old(v)@).to_multiset(),
            forall|m1: int, m2: int|
                0 <= m1 < m2 < i && m2 < v@.len() ==> str_le(
                    (#[trigger] v@[m1])@,
                    (#[trigger] v@[m2])@,
                ),
        decreases v@.len() - i,
    {
        let mut j: usize = i;
        while j > 0 && !str_le_exec(v[j - 1].as_str(), v[j].as_str())
            invariant
                j <= i,
                i < v@.len(),
                v@.len() == old(v)@.len(),
                v@.to_multiset() == old(v)@.to_multiset(),
                path_views(v@).to_multiset() == path_views(old(v)@).to_multiset(),
                forall|m1: int, m2: int|
                    0 <= m1 < m2 <= i && m2 != j ==> str_le(
                        (#[trigger] v@[m1])@,
                        (#[trigger] v@[m2])@,
                    ),
            decreases j,
        {
            let ghost s0 = v@;
            proof {
                lemma_str_le_total(s0[j - 1]@, s0[j as int]@, 0);
            }
            let x = v[j - 1].clone();
            let y = v[j].clone();
            v[j - 1] = y;
            v[j] = x;
            proof {
                broadcast use vstd::seq_lib::group_to_multiset_ensures;
                broadcast use vstd::seq_lib::to_multiset_update;

                assert(v@ == s0.update(j - 1, s0[j as int]).update(j as int, s0[j - 1]));
                assert(s0.update(j - 1, s0[j as int])[j as int] == s0[j as int]);
                assert(s0.to_multiset().count(s0[j - 1]) > 0);
                assert(s0.update(j - 1, s0[j as int]).to_multiset().count(s0[j as int]) > 0);
                assert(v@.to_multiset() =~= s0.to_multiset());
                let pv0 = path_views(s0);
                assert(path_views(v@) =~= pv0.update(j - 1, pv0[j as int]).update(
                    j as int,
                    pv0[j - 1],
                ));
                assert(pv0.update(j - 1, pv0[j as int])[j as int] == pv0[j as int]);
                assert(pv0.to_multiset().count(pv0[j - 1]) > 0);
                assert(pv0.update(j - 1, pv0[j as int]).to_multiset().count(pv0[j as int]) > 0);
                assert(path_views(v@).to_multiset() =~= pv0.to_multiset());
                assert forall|m1: int, m2: int|
                    0 <= m1 < m2 <= i && m2 != j - 1 implies str_le(
                    (#[trigger] v@[m1])@,
                    (#[trigger] v@[m2])@,
                ) by {
                    if m2 == j {
                        if m1 == j - 1 {
                            assert(str_le(s0[j as int]@, s0[j - 1]@));
                        } else {
                            assert(str_le(s0[m1]@, s0[j - 1]@));
                        }
                    } else if m2 > j {
                        if m1 == j - 1 {
                            assert(str_le(s0[j as int]@, s0[m2]@));
                        } else if m1 == j {
                            assert(str_le(s0[j - 1]@, s0[m2]@));
                        } else {
                            assert(str_le(s0[m1]@, s0[m2]@));
                        }
                    } else {
                        assert(str_le(s0[m1]@, s0[m2]@));
                    }
                }
            }
            j = j - 1;
        }
        proof {
            assert forall|m1: int, m2: int| 0 <= m1 < m2 <= i implies str_le(
                (#[trigger] v@[m1])@,
                (#[trigger] v@[m2])@,
            ) by {
                if m2 == j && m1 < j - 1 {
                    assert(str_le(v@[m1]@, v@[j - 1]@));
                    assert(str_le(v@[j - 1]@, v@[j as int]@));
                    lemma_str_le_trans(v@[m1]@, v@[j - 1]@, v@[j as int]@, 0);
                }
            }
        }
        i = i + 1;
    }
    proof {
        lemma_paths_sorted_views(v@);
    }
}

/// Membership of a fingerprint among the seen ones.
fn seen_contains(v: &Vec<Vec<u8>>, x: &Vec<u8>) -> (r: bool)
    ensures
        r == exists|j: int| 0 <= j < v@.len() && (#[trigger] v@[j])@ == x@,
{
    let mut i: usize = 0;
    while i < v.len()
        invariant
            i <= v@.len(),
            forall|j: int| 0 <= j < i ==> (#[trigger] v@[j])@ != x@,
        decreases v@.len() - i,
    {
        if bytes_eq(&v[i], x) {
            return true;
        }
        i = i + 1;
    }
    false
}

/// Filters out files whose fingerprint was already seen and maps each kept
/// file to `outdir/<name>`.  The result is exactly `flat_plan_of` over the
/// views; the first kept path with no extractable file name aborts the run.
pub fn filter_repeated(scandata: &ScanData, outdir: &str) -> (r: Result<FileList, PathError>)
    ensures
        match r {
            Ok(fl) => flat_plan_of(scan_view(scandata@), outdir@) == Ok::<
                Seq<(Seq<char>, Seq<char>)>,
                Seq<char>,
            >(pairs_view(fl@)),
            Err(e) => flat_plan_of(scan_view(scandata@), outdir@) == Err::<
                Seq<(Seq<char>, Seq<char>)>,
                Seq<char>,
            >(e.path@),
        },
{
    let ghost s = scan_view(scandata@);
    let mut filtered: FileList = Vec::new();
    let mut seenv: Vec<Vec<u8>> = Vec::new();
    let ghost mut seen = Set::<Seq<u8>>::empty();
    proof {
        assert(pairs_view(filtered@) =~= Seq::<(Seq<char>, Seq<char>)>::empty());
    }
    let mut i: usize = 0;
    while i < scandata.len()
        invariant
            i <= s.len(),
            s == scan_view(scandata@),
            s.len() == scandata@.len(),
            flat_rec(s, outdir@, i as int, seen, pairs_view(filtered@)) == flat_plan_of(
                s,
                outdir@,
            ),
            forall|h: Seq<u8>|
                #[trigger] seen.contains(h) <==> exists|j: int|
                    0 <= j < seenv@.len() && (#[trigger] seenv@[j])@ == h,
        decreases s.len() - i,
    {
        proof {
            assert(s[i as int] == (scandata@[i as int].0@, scandata@[i as int].1@));
        }
        let ghost hv = scandata@[i as int].1@;
        if seen_contains(&seenv, &scandata[i].1) {
            proof {
                assert(seen.contains(hv));
            }
        } else {
            proof {
                assert(!seen.contains(hv));
            }
            match basename(scandata[i].0.as_str()) {
                None => {
                    return Err(PathError { path: scandata[i].0.clone() });
                },
                Some(name) => {
                    let ghost filtered0 = filtered@;
                    let ghost seenv0 = seenv@;
                    let dst = path_join(outdir, name.as_str());
                    filtered.push((scandata[i].0.clone(), dst));
                    seenv.push(scandata[i].1.clone());
                    proof {
                        seen = seen.insert(hv);
                        assert forall|h: Seq<u8>| #[trigger] seen.contains(h) implies exists|
                            j: int,
                        | 0 <= j < seenv@.len() && (#[trigger] seenv@[j])@ == h by {
                            if h == hv {
                                assert(seenv@[seenv@.len() - 1]@ == h);
                            } else {
                                let j = choose|j: int|
                                    0 <= j < seenv0.len() && (#[trigger] seenv0[j])@ == h;
                                assert(seenv@[j]@ == h);
                            }
                        }
                        assert forall|h: Seq<u8>|
                            exists|j: int|
                                0 <= j < seenv@.len() && (#[trigger] seenv@[j])@
                                    == h implies #[trigger] seen.contains(h) by {
                            let j = choose|j: int|
                                0 <= j < seenv@.len() && (#[trigger] seenv@[j])@ == h;
                            if j < seenv0.len() {
                                assert(seenv0[j]@ == h);
                            }
                        }
                        assert(pairs_view(filtered@) =~= pairs_view(filtered0).push(
                            (s[i as int].0, joined(outdir@, basename_of(s[i as int].0))),
                        ));
                    }
                },
            }
        }
        i = i + 1;
    }
    Ok(filtered)
}

} // verus!
