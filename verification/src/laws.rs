//! Proved laws of the planner: determinism, uniqueness of sources and
//! destinations, duplicate handling under both fidelities, and
//! deconfliction.

use vstd::prelude::*;

use crate::actions::alloc_dest;
use crate::actions::entry_candidate;
use crate::actions::entry_fp;
use crate::actions::free_index;
use crate::actions::free_pred;
use crate::actions::init_state;
use crate::actions::is_dup;
use crate::actions::lemma_alloc_dest_fresh;
use crate::actions::lemma_free_index_is_free;
use crate::actions::lemma_free_pred_unique;
use crate::actions::plan_of;
use crate::actions::plan_rec;
use crate::actions::plan_step;
use crate::actions::suffixed;
use crate::actions::ConfigV;
use crate::actions::EntryV;
use crate::actions::PlanStateV;
use crate::digest::sha256_of;
use crate::pathstr::basename_of;
use crate::pathstr::dec_of;
use crate::pathstr::dir_pre_of;
use crate::pathstr::ext_of;
use crate::pathstr::lemma_last_index_of_char;
use crate::pathstr::stem_of;

verus! {

// ---------------------------------------------------------------------------
// Which entries the planner keeps
// ---------------------------------------------------------------------------

/// The index of the first entry among `s[0..n]` whose fingerprint is `fp`,
/// or `-1` when there is none.
pub open spec fn first_fp_index(cfg: ConfigV, s: Seq<EntryV>, fp: Seq<u8>, n: int) -> int
    decreases n,
{
    if n <= 0 {
        -1
    } else if first_fp_index(cfg, s, fp, n - 1) >= 0 {
        first_fp_index(cfg, s, fp, n - 1)
    } else if entry_fp(s[n - 1], cfg.fast_hash) == fp {
        n - 1
    } else {
        -1
    }
}

/// Whether the planner discards entry `i` as a duplicate: an earlier entry
/// is its fingerprint's representative, and — under quick fidelity, where
/// equal fingerprints are inconclusive — the full digests agree too.
pub open spec fn discarded(cfg: ConfigV, s: Seq<EntryV>, i: int) -> bool {
    let rep = first_fp_index(cfg, s, entry_fp(s[i], cfg.fast_hash), i);
    &&& rep >= 0
    &&& (!cfg.fast_hash || sha256_of(s[rep].content) == sha256_of(s[i].content))
}

/// Whether the planner keeps entry `i`.
pub open spec fn placed(cfg: ConfigV, s: Seq<EntryV>, i: int) -> bool {
    !discarded(cfg, s, i)
}

/// Pairwise-distinct scanned paths, as a scan of a file tree yields them.
pub open spec fn paths_distinct(s: Seq<EntryV>) -> bool {
    forall|k1: int, k2: int|
        0 <= k1 < k2 < s.len() ==> (#[trigger] s[k1]).path != (#[trigger] s[k2]).path
}

/// Whether some plan entry has `path` as its source.
pub open spec fn plan_contains_source(plan: Seq<(Seq<char>, Seq<char>)>, path: Seq<char>) -> bool {
    exists|m: int| 0 <= m < plan.len() && (#[trigger] plan[m]).0 == path
}

/// Whether plan entry `m` took its source from a placed entry before `n`.
pub open spec fn source_from_placed(
    cfg: ConfigV,
    s: Seq<EntryV>,
    n: int,
    plan: Seq<(Seq<char>, Seq<char>)>,
    m: int,
) -> bool {
    exists|k: int| 0 <= k < n && placed(cfg, s, k) && plan[m].0 == (#[trigger] s[k]).path
}

// ---------------------------------------------------------------------------
// Facts about the first-fingerprint index
// ---------------------------------------------------------------------------

proof fn lemma_first_fp_props(cfg: ConfigV, s: Seq<EntryV>, fp: Seq<u8>, n: int)
    ensures
        -1 <= first_fp_index(cfg, s, fp, n) < n || first_fp_index(cfg, s, fp, n) == -1,
        first_fp_index(cfg, s, fp, n) >= 0 ==> entry_fp(
            s[first_fp_index(cfg, s, fp, n)],
            cfg.fast_hash,
        ) == fp,
        first_fp_index(cfg, s, fp, n) >= 0 ==> forall|k: int|
            0 <= k < first_fp_index(cfg, s, fp, n) ==> entry_fp(#[trigger] s[k], cfg.fast_hash)
                != fp,
        first_fp_index(cfg, s, fp, n) == -1 ==> forall|k: int|
            0 <= k < n ==> entry_fp(#[trigger] s[k], cfg.fast_hash) != fp,
    decreases n,
{
    if n > 0 {
        lemma_first_fp_props(cfg, s, fp, n - 1);
    }
}

proof fn lemma_first_fp_mono(cfg: ConfigV, s: Seq<EntryV>, fp: Seq<u8>, n1: int, n2: int)
    requires
        0 <= n1 <= n2,
        first_fp_index(cfg, s, fp, n1) >= 0,
    ensures
        first_fp_index(cfg, s, fp, n2) == first_fp_index(cfg, s, fp, n1),
    decreases n2 - n1,
{
    if n2 > n1 {
        lemma_first_fp_mono(cfg, s, fp, n1, n2 - 1);
    }
}

proof fn lemma_first_fp_found(cfg: ConfigV, s: Seq<EntryV>, fp: Seq<u8>, n: int, k: int)
    requires
        0 <= k < n,
        entry_fp(s[k], cfg.fast_hash) == fp,
    ensures
        first_fp_index(cfg, s, fp, n) >= 0,
{
    lemma_first_fp_props(cfg, s, fp, n);
}

// ---------------------------------------------------------------------------
// The invariant a planning run maintains
// ---------------------------------------------------------------------------

/// What holds of the planning state after the first `i` entries: the bucket
/// maps each seen fingerprint to its first index, every planned destination
/// is claimed and the destinations and sources are pairwise distinct, and
/// the planned sources are exactly the paths of the placed entries so far.
pub open spec fn wf_state(cfg: ConfigV, s: Seq<EntryV>, i: int, st: PlanStateV) -> bool {
    &&& 0 <= i <= s.len()
    &&& (forall|fp: Seq<u8>| #[trigger]
        st.bucket.contains_key(fp) ==> first_fp_index(cfg, s, fp, i) >= 0 && st.bucket[fp]
            == first_fp_index(cfg, s, fp, i))
    &&& (forall|fp: Seq<u8>|
        first_fp_index(cfg, s, fp, i) >= 0 ==> #[trigger] st.bucket.contains_key(fp))
    &&& st.used.finite()
    &&& (forall|m: int| 0 <= m < st.plan.len() ==> st.used.contains((#[trigger] st.plan[m]).1))
    &&& (forall|m1: int, m2: int|
        0 <= m1 < m2 < st.plan.len() ==> (#[trigger] st.plan[m1]).1 != (#[trigger] st.plan[m2]).1)
    &&& (forall|m1: int, m2: int|
        0 <= m1 < m2 < st.plan.len() ==> (#[trigger] st.plan[m1]).0 != (#[trigger] st.plan[m2]).0)
    &&& (forall|m: int|
        0 <= m < st.plan.len() ==> #[trigger] source_from_placed(cfg, s, i, st.plan, m))
    &&& (forall|k: int|
        0 <= k < i && placed(cfg, s, k) ==> plan_contains_source(
            st.plan,
            (#[trigger] s[k]).path,
        ))
}

proof fn lemma_step_wf(cfg: ConfigV, s: Seq<EntryV>, i: int, st: PlanStateV)
    requires
        wf_state(cfg, s, i, st),
        0 <= i < s.len(),
        paths_distinct(s),
        plan_step(cfg, s, i, st) is Ok,
    ensures
        wf_state(cfg, s, i + 1, plan_step(cfg, s, i, st)->Ok_0),
        placed(cfg, s, i) ==> plan_step(cfg, s, i, st)->Ok_0.plan == st.plan.push(
            (s[i].path, alloc_dest(st.used, entry_candidate(cfg, s[i]))),
        ),
        !placed(cfg, s, i) ==> plan_step(cfg, s, i, st)->Ok_0.plan == st.plan,
{
    let fp = entry_fp(s[i], cfg.fast_hash);
    lemma_first_fp_props(cfg, s, fp, i);
    if first_fp_index(cfg, s, fp, i) >= 0 {
        assert(st.bucket.contains_key(fp));
    }
    assert(is_dup(cfg, s, i, st) == discarded(cfg, s, i));
    let st1 = plan_step(cfg, s, i, st)->Ok_0;

    // the bucket still maps each fingerprint to its first index
    assert forall|fp2: Seq<u8>| #[trigger] st1.bucket.contains_key(fp2) implies first_fp_index(
        cfg,
        s,
        fp2,
        i + 1,
    ) >= 0 && st1.bucket[fp2] == first_fp_index(cfg, s, fp2, i + 1) by {
        lemma_first_fp_props(cfg, s, fp2, i);
        if fp2 == fp && !st.bucket.contains_key(fp) {
            assert(first_fp_index(cfg, s, fp2, i) == -1);
            assert(first_fp_index(cfg, s, fp2, i + 1) == i);
        } else {
            assert(st.bucket.contains_key(fp2));
            lemma_first_fp_mono(cfg, s, fp2, i, i + 1);
        }
    }
    assert forall|fp2: Seq<u8>|
        first_fp_index(cfg, s, fp2, i + 1) >= 0 implies #[trigger] st1.bucket.contains_key(
        fp2,
    ) by {
        if first_fp_index(cfg, s, fp2, i) >= 0 {
            assert(st.bucket.contains_key(fp2));
        } else {
            assert(entry_fp(s[i], cfg.fast_hash) == fp2);
        }
    }

    if !is_dup(cfg, s, i, st) {
        let cand = entry_candidate(cfg, s[i]);
        let dest = alloc_dest(st.used, cand);
        lemma_alloc_dest_fresh(st.used, cand);
        // every destination, the fresh one included, is claimed
        assert forall|m: int| 0 <= m < st1.plan.len() implies st1.used.contains(
            (#[trigger] st1.plan[m]).1,
        ) by {
            if m < st.plan.len() {
                assert(st.used.contains(st.plan[m].1));
            }
        }
        // destinations stay pairwise distinct: the fresh one was unclaimed
        assert forall|m1: int, m2: int|
            0 <= m1 < m2 < st1.plan.len() implies (#[trigger] st1.plan[m1]).1 != (
        #[trigger] st1.plan[m2]).1 by {
            if m2 == st.plan.len() {
                assert(st.used.contains(st.plan[m1].1));
            }
        }
        // sources stay pairwise distinct: every earlier source is the path
        // of an earlier entry, and paths are pairwise distinct
        assert forall|m1: int, m2: int|
            0 <= m1 < m2 < st1.plan.len() implies (#[trigger] st1.plan[m1]).0 != (
        #[trigger] st1.plan[m2]).0 by {
            if m2 == st.plan.len() {
                assert(source_from_placed(cfg, s, i, st.plan, m1));
                let k = choose|k: int|
                    0 <= k < i && placed(cfg, s, k) && st.plan[m1].0 == (#[trigger] s[k]).path;
                assert(s[k].path != s[i].path);
            }
        }
        assert forall|m: int| 0 <= m < st1.plan.len() implies #[trigger] source_from_placed(
            cfg,
            s,
            i + 1,
            st1.plan,
            m,
        ) by {
            if m < st.plan.len() {
                assert(source_from_placed(cfg, s, i, st.plan, m));
                let k = choose|k: int|
                    0 <= k < i && placed(cfg, s, k) && st.plan[m].0 == (#[trigger] s[k]).path;
                assert(0 <= k < i + 1 && placed(cfg, s, k) && st1.plan[m].0 == s[k].path);
            } else {
                assert(st1.plan[m].0 == s[i].path);
                assert(0 <= i < i + 1 && placed(cfg, s, i) && st1.plan[m].0 == (
                #[trigger] s[i]).path);
            }
        }
        assert forall|k: int| 0 <= k < i + 1 && placed(cfg, s, k) implies plan_contains_source(
            st1.plan,
            (#[trigger] s[k]).path,
        ) by {
            if k < i {
                let m = choose|m: int|
                    0 <= m < st.plan.len() && (#[trigger] st.plan[m]).0 == s[k].path;
                assert(st1.plan[m].0 == s[k].path);
            } else {
                assert(st1.plan[st.plan.len() as int].0 == s[i].path);
            }
        }
    } else {
        assert(st1.plan == st.plan);
        assert forall|m: int| 0 <= m < st1.plan.len() implies #[trigger] source_from_placed(
            cfg,
            s,
            i + 1,
            st1.plan,
            m,
        ) by {
            assert(source_from_placed(cfg, s, i, st.plan, m));
            let k = choose|k: int|
                0 <= k < i && placed(cfg, s, k) && st.plan[m].0 == (#[trigger] s[k]).path;
            assert(0 <= k < i + 1 && placed(cfg, s, k) && st1.plan[m].0 == s[k].path);
        }
        assert forall|k: int| 0 <= k < i + 1 && placed(cfg, s, k) implies plan_contains_source(
            st1.plan,
            (#[trigger] s[k]).path,
        ) by {
            assert(k < i);
        }
    }
}

proof fn lemma_rec_wf(cfg: ConfigV, s: Seq<EntryV>, i: int, st: PlanStateV)
    requires
        wf_state(cfg, s, i, st),
        paths_distinct(s),
        plan_rec(cfg, s, i, st) is Ok,
    ensures
        ({
            let p = plan_rec(cfg, s, i, st)->Ok_0;
            &&& (forall|m1: int, m2: int|
                0 <= m1 < m2 < p.len() ==> (#[trigger] p[m1]).1 != (#[trigger] p[m2]).1)
            &&& (forall|m1: int, m2: int|
                0 <= m1 < m2 < p.len() ==> (#[trigger] p[m1]).0 != (#[trigger] p[m2]).0)
            &&& (forall|m: int|
                0 <= m < p.len() ==> #[trigger] source_from_placed(cfg, s, s.len() as int, p, m))
            &&& (forall|k: int|
                0 <= k < s.len() && placed(cfg, s, k) ==> plan_contains_source(
                    p,
                    (#[trigger] s[k]).path,
                ))
        }),
    decreases s.len() - i,
{
    if i >= s.len() {
    } else {
        lemma_step_wf(cfg, s, i, st);
        lemma_rec_wf(cfg, s, i + 1, plan_step(cfg, s, i, st)->Ok_0);
    }
}

proof fn lemma_init_wf(cfg: ConfigV, s: Seq<EntryV>)
    ensures
        wf_state(cfg, s, 0, init_state()),
{
    assert forall|fp: Seq<u8>| first_fp_index(cfg, s, fp, 0) == -1 by {}
}

// ---------------------------------------------------------------------------
// The laws
// ---------------------------------------------------------------------------

/// Determinism: the plan is a function of the scanned data and the
/// configuration alone, so two planning runs over the same data under the
/// same configuration produce the same plan, entry for entry.
pub proof fn lemma_plan_deterministic(
    cfg: ConfigV,
    s: Seq<EntryV>,
    r1: Result<Seq<(Seq<char>, Seq<char>)>, Seq<char>>,
    r2: Result<Seq<(Seq<char>, Seq<char>)>, Seq<char>>,
)
    requires
        r1 == plan_of(cfg, s),
        r2 == plan_of(cfg, s),
    ensures
        r1 == r2,
{
}

/// Uniqueness: in a completed plan the destinations are pairwise distinct,
/// and — the scanned paths being pairwise distinct, as a scan of a file
/// tree yields them — so are the sources.
pub proof fn lemma_plan_unique(cfg: ConfigV, s: Seq<EntryV>)
    requires
        paths_distinct(s),
        plan_of(cfg, s) is Ok,
    ensures
        ({
            let p = plan_of(cfg, s)->Ok_0;
            &&& (forall|m1: int, m2: int|
                0 <= m1 < m2 < p.len() ==> (#[trigger] p[m1]).1 != (#[trigger] p[m2]).1)
            &&& (forall|m1: int, m2: int|
                0 <= m1 < m2 < p.len() ==> (#[trigger] p[m1]).0 != (#[trigger] p[m2]).0)
        }),
{
    lemma_init_wf(cfg, s);
    lemma_rec_wf(cfg, s, 0, init_state());
}

/// A placed entry's path is in the plan, a discarded entry's is not.
pub proof fn lemma_plan_membership(cfg: ConfigV, s: Seq<EntryV>, k: int)
    requires
        paths_distinct(s),
        plan_of(cfg, s) is Ok,
        0 <= k < s.len(),
    ensures
        plan_contains_source(plan_of(cfg, s)->Ok_0, s[k].path) == placed(cfg, s, k),
{
    lemma_init_wf(cfg, s);
    lemma_rec_wf(cfg, s, 0, init_state());
    let p = plan_of(cfg, s)->Ok_0;
    if plan_contains_source(p, s[k].path) {
        let m = choose|m: int| 0 <= m < p.len() && (#[trigger] p[m]).0 == s[k].path;
        assert(source_from_placed(cfg, s, s.len() as int, p, m));
        let k2 = choose|k2: int|
            0 <= k2 < s.len() && placed(cfg, s, k2) && p[m].0 == (#[trigger] s[k2]).path;
        assert(k2 == k);
    }
}

/// Dedup correctness: of two entries with byte-identical content at most
/// one is in the plan — unconditionally under full fidelity; under quick
/// fidelity provided no earlier entry shares their fingerprint with a
/// different full digest (a quick-fingerprint collision against a third,
/// distinct content).
pub proof fn lemma_dedup(cfg: ConfigV, s: Seq<EntryV>, i: int, j: int)
    requires
        paths_distinct(s),
        plan_of(cfg, s) is Ok,
        0 <= i < j < s.len(),
        s[i].content == s[j].content,
        cfg.fast_hash ==> forall|k: int|
            0 <= k < i && entry_fp(#[trigger] s[k], cfg.fast_hash) == entry_fp(
                s[i],
                cfg.fast_hash,
            ) ==> sha256_of(s[k].content) == sha256_of(s[i].content),
    ensures
        !(plan_contains_source(plan_of(cfg, s)->Ok_0, s[i].path) && plan_contains_source(
            plan_of(cfg, s)->Ok_0,
            s[j].path,
        )),
{
    let fp = entry_fp(s[i], cfg.fast_hash);
    assert(entry_fp(s[j], cfg.fast_hash) == fp);
    lemma_first_fp_props(cfg, s, fp, i);
    lemma_first_fp_props(cfg, s, fp, j);
    lemma_plan_membership(cfg, s, i);
    lemma_plan_membership(cfg, s, j);
    let ri = first_fp_index(cfg, s, fp, i);
    let rj = first_fp_index(cfg, s, fp, j);
    if ri == -1 {
        // `i` is the representative of this fingerprint, so `j` compares
        // against `i` and is discarded
        lemma_first_fp_found(cfg, s, fp, j, i);
        assert(rj >= 0);
        assert(!(rj < i) && !(rj > i));
        assert(discarded(cfg, s, j));
    } else {
        // both compare against the same earlier representative; their full
        // digests agree with its, so both are discarded
        lemma_first_fp_mono(cfg, s, fp, i, j);
        assert(rj == ri);
        if cfg.fast_hash {
            assert(sha256_of(s[ri].content) == sha256_of(s[i].content));
        }
        assert(discarded(cfg, s, i));
        assert(discarded(cfg, s, j));
    }
}

/// Under full fidelity an entry is planned exactly when no earlier entry
/// has the same full digest: equal digests are conclusive there, so both
/// directions of duplicate handling hold without proviso.
pub proof fn lemma_full_fidelity_membership(cfg: ConfigV, s: Seq<EntryV>, k: int)
    requires
        paths_distinct(s),
        plan_of(cfg, s) is Ok,
        !cfg.fast_hash,
        0 <= k < s.len(),
    ensures
        plan_contains_source(plan_of(cfg, s)->Ok_0, s[k].path) <==> (forall|j: int|
            0 <= j < k ==> sha256_of((#[trigger] s[j]).content) != sha256_of(s[k].content)),
{
    lemma_plan_membership(cfg, s, k);
    let fp = entry_fp(s[k], cfg.fast_hash);
    lemma_first_fp_props(cfg, s, fp, k);
    if first_fp_index(cfg, s, fp, k) >= 0 {
        let r = first_fp_index(cfg, s, fp, k);
        assert(sha256_of(s[r].content) == sha256_of(s[k].content));
    } else {
        assert forall|j: int|
            0 <= j < k implies sha256_of((#[trigger] s[j]).content) != sha256_of(
            s[k].content,
        ) by {
            assert(entry_fp(s[j], cfg.fast_hash) != fp);
        }
    }
}

/// Quick-fidelity false positives: two distinct-content entries that share
/// a quick fingerprint — the first of them the fingerprint's representative
/// — are re-checked by full digest, found different, and both planned.
pub proof fn lemma_quick_false_positive(cfg: ConfigV, s: Seq<EntryV>, i: int, j: int)
    requires
        paths_distinct(s),
        plan_of(cfg, s) is Ok,
        cfg.fast_hash,
        0 <= i < j < s.len(),
        entry_fp(s[i], cfg.fast_hash) == entry_fp(s[j], cfg.fast_hash),
        sha256_of(s[i].content) != sha256_of(s[j].content),
        forall|k: int|
            0 <= k < i ==> entry_fp(#[trigger] s[k], cfg.fast_hash) != entry_fp(
                s[i],
                cfg.fast_hash,
            ),
    ensures
        plan_contains_source(plan_of(cfg, s)->Ok_0, s[i].path),
        plan_contains_source(plan_of(cfg, s)->Ok_0, s[j].path),
{
    let fp = entry_fp(s[i], cfg.fast_hash);
    lemma_first_fp_props(cfg, s, fp, i);
    lemma_first_fp_props(cfg, s, fp, j);
    lemma_plan_membership(cfg, s, i);
    lemma_plan_membership(cfg, s, j);
    let ri = first_fp_index(cfg, s, fp, i);
    let rj = first_fp_index(cfg, s, fp, j);
    assert(ri == -1);
    lemma_first_fp_found(cfg, s, fp, j, i);
    assert(rj >= 0);
    assert(!(rj < i) && !(rj > i));
    assert(placed(cfg, s, i));
    assert(placed(cfg, s, j));
}

/// Deconfliction: a candidate not yet claimed is allocated unchanged, and
/// the next allocation of the same candidate gets its `-1` variant when
/// that is free.
#[verifier::rlimit(50)]
pub proof fn lemma_deconfliction(used: Set<Seq<char>>, cand: Seq<char>)
    requires
        used.finite(),
        !used.contains(cand),
        !used.contains(suffixed(cand, 1)),
    ensures
        alloc_dest(used, cand) == cand,
        alloc_dest(used.insert(cand), cand) == suffixed(cand, 1),
{
    let used1 = used.insert(cand);
    // the suffixed variant is strictly longer than the candidate, so
    // inserting the candidate cannot claim it
    let base = basename_of(cand);
    assert(suffixed(cand, 1).len() > cand.len()) by {
        lemma_last_index_of_char(cand, '/');
        lemma_last_index_of_char(base, '.');
        assert(dir_pre_of(cand) + base =~= cand);
        assert(stem_of(base).len() + ext_of(base).len() == base.len());
        assert(dec_of(1).len() == 1);
        assert(suffixed(cand, 1).len() == dir_pre_of(cand).len() + stem_of(base).len() + 1
            + dec_of(1).len() + ext_of(base).len());
    }
    assert(!used1.contains(suffixed(cand, 1)));
    assert(free_pred(used1, cand, 1));
    lemma_free_index_is_free(used1, cand);
    lemma_free_pred_unique(used1, cand, 1, free_index(used1, cand));
}

} // verus!
