//! The deduplication-and-placement planner.
//!
//! `filter_repeated` walks scanned files in order, drops the ones whose
//! content was already seen, dates and names the rest, and deconflicts
//! clashing destination names with `-1`, `-2`, ... suffixes.

use vstd::prelude::*;
use vstd::seq_lib::seq_to_set_is_finite;

use crate::date::resolve_date;
use crate::date::resolved_date_of;
use crate::digest::bytes_eq;
use crate::digest::fingerprint_of;
use crate::digest::hash_file;
use crate::digest::sha256_of;
use crate::options::Options;
use crate::pathstr::basename;
use crate::pathstr::basename_of;
use crate::pathstr::dec_of;
use crate::pathstr::dest_candidate;
use crate::pathstr::dir_pre_of;
use crate::pathstr::ext_of;
use crate::pathstr::lemma_dec_injective;
use crate::pathstr::path_join;
use crate::pathstr::render_u64;
use crate::pathstr::render_year;
use crate::pathstr::split_for_suffix;
use crate::pathstr::stem_of;

verus! {

/// One scanned file: its path, its content bytes, and its filesystem date.
pub struct ScanEntry {
    pub path: String,
    pub content: Vec<u8>,
    pub fs_year: i32,
    pub fs_month: u32,
}

/// The mathematical image of a `ScanEntry`.
pub struct EntryV {
    pub path: Seq<char>,
    pub content: Seq<u8>,
    pub fs_year: int,
    pub fs_month: int,
}

impl View for ScanEntry {
    type V = EntryV;

    open spec fn view(&self) -> EntryV {
        EntryV {
            path: self.path@,
            content: self.content@,
            fs_year: self.fs_year as int,
            fs_month: self.fs_month as int,
        }
    }
}

/// A planned copy: source path and destination path.
pub type CopyPair = (String, String);

/// The ordered plan: one copy per unique file, in scan order.
pub type CopyList = Vec<CopyPair>;

/// A source path with no extractable file name, from which no destination
/// can be synthesized.
#[derive(Debug)]
pub struct PathError {
    pub path: String,
}

/// The views of a list of copy pairs.
pub open spec fn pairs_view(s: Seq<(String, String)>) -> Seq<(Seq<char>, Seq<char>)> {
    s.map_values(|p: (String, String)| (p.0@, p.1@))
}

/// The set of path views held by a vector of paths.
pub open spec fn path_set(v: Seq<String>) -> Set<Seq<char>> {
    v.map_values(|s: String| s@).to_set()
}

// ---------------------------------------------------------------------------
// Destination candidates
// ---------------------------------------------------------------------------

/// Builds the destination candidate for a source file: the output directory
/// extended with year, month, and the source's file name.  Fails when the
/// source path has no file name.
pub fn make_outpath(outdir: &str, srcpath: &str, year: i32, month: u32) -> (r: Result<
    String,
    PathError,
>)
    ensures
        match r {
            Ok(p) => basename_of(srcpath@).len() > 0 && p@ == dest_candidate(
                outdir@,
                srcpath@,
                year as int,
                month as int,
            ),
            Err(e) => basename_of(srcpath@).len() == 0 && e.path@ == srcpath@,
        },
{
    match basename(srcpath) {
        None => Err(PathError { path: srcpath.to_owned() }),
        Some(name) => {
            let y = render_year(year);
            let m = render_u64(month as u64);
            let d1 = path_join(outdir, y.as_str());
            let d2 = path_join(d1.as_str(), m.as_str());
            Ok(path_join(d2.as_str(), name.as_str()))
        },
    }
}

// ---------------------------------------------------------------------------
// Deconfliction
// ---------------------------------------------------------------------------

/// The deconflicted variant of a candidate path: `-<n>` wedged between the
/// stem and the extension of its file name.
pub open spec fn suffixed(cand: Seq<char>, n: nat) -> Seq<char> {
    dir_pre_of(cand) + stem_of(basename_of(cand)) + seq!['-'] + dec_of(n) + ext_of(
        basename_of(cand),
    )
}

/// Distinct suffix indices give distinct variants of the same candidate.
pub proof fn lemma_suffixed_injective(cand: Seq<char>, a: nat, b: nat)
    requires
        suffixed(cand, a) == suffixed(cand, b),
    ensures
        a == b,
{
    let p = dir_pre_of(cand) + stem_of(basename_of(cand)) + seq!['-'];
    let e = ext_of(basename_of(cand));
    assert(suffixed(cand, a) == p + dec_of(a) + e);
    assert(suffixed(cand, b) == p + dec_of(b) + e);
    assert(dec_of(a) =~= (p + dec_of(a) + e).subrange(
        p.len() as int,
        p.len() + dec_of(a).len() as int,
    ));
    assert(dec_of(b) =~= (p + dec_of(b) + e).subrange(
        p.len() as int,
        p.len() + dec_of(b).len() as int,
    ));
    assert((p + dec_of(a) + e).len() == (p + dec_of(b) + e).len());
    assert(dec_of(a).len() == dec_of(b).len());
    assert(dec_of(a) == dec_of(b));
    lemma_dec_injective(a, b);
}

/// Whether `n` is the smallest positive suffix index whose variant of
/// `cand` is not in `used`.
pub open spec fn free_pred(used: Set<Seq<char>>, cand: Seq<char>, n: nat) -> bool {
    &&& 1 <= n
    &&& !used.contains(suffixed(cand, n))
    &&& forall|m: nat| 1 <= m < n ==> used.contains(#[trigger] suffixed(cand, m))
}

/// The smallest positive suffix index whose variant of `cand` is free.
pub open spec fn free_index(used: Set<Seq<char>>, cand: Seq<char>) -> nat {
    choose|n: nat| free_pred(used, cand, n)
}

/// The destination the allocator gives a candidate: the candidate itself
/// when free, else its variant with the smallest free suffix index.
pub open spec fn alloc_dest(used: Set<Seq<char>>, cand: Seq<char>) -> Seq<char> {
    if !used.contains(cand) {
        cand
    } else {
        suffixed(cand, free_index(used, cand))
    }
}

/// If the variants for every index `1..=k` are all used, there are at least
/// `k` used paths.
proof fn lemma_suffix_pigeonhole(used: Set<Seq<char>>, cand: Seq<char>, k: nat)
    requires
        used.finite(),
        forall|m: nat| 1 <= m <= k ==> used.contains(#[trigger] suffixed(cand, m)),
    ensures
        used.len() >= k,
    decreases k,
{
    if k > 0 {
        let used2 = used.remove(suffixed(cand, k));
        assert forall|m: nat| 1 <= m <= (k - 1) as nat implies used2.contains(
            #[trigger] suffixed(cand, m),
        ) by {
            if suffixed(cand, m) == suffixed(cand, k) {
                lemma_suffixed_injective(cand, m, k);
            }
        }
        lemma_suffix_pigeonhole(used2, cand, (k - 1) as nat);
        assert(used.contains(suffixed(cand, k)));
        assert(used.len() == used2.len() + 1);
    }
}

/// There is a least free suffix index, no bigger than one past any free one.
proof fn lemma_least_free_exists(used: Set<Seq<char>>, cand: Seq<char>, n: nat)
    requires
        1 <= n,
        !used.contains(suffixed(cand, n)),
    ensures
        exists|n0: nat| free_pred(used, cand, n0),
    decreases n,
{
    if forall|m: nat| 1 <= m < n ==> used.contains(#[trigger] suffixed(cand, m)) {
        assert(free_pred(used, cand, n));
    } else {
        let m = choose|m: nat| 1 <= m < n && !used.contains(#[trigger] suffixed(cand, m));
        lemma_least_free_exists(used, cand, m);
    }
}

/// Only one index satisfies `free_pred`.
pub proof fn lemma_free_pred_unique(used: Set<Seq<char>>, cand: Seq<char>, n1: nat, n2: nat)
    requires
        free_pred(used, cand, n1),
        free_pred(used, cand, n2),
    ensures
        n1 == n2,
{
    if n1 < n2 {
        assert(used.contains(suffixed(cand, n1)));
    } else if n2 < n1 {
        assert(used.contains(suffixed(cand, n2)));
    }
}

/// `free_index` satisfies `free_pred`, and is at most one past the number
/// of used paths.
pub proof fn lemma_free_index_is_free(used: Set<Seq<char>>, cand: Seq<char>)
    requires
        used.finite(),
    ensures
        free_pred(used, cand, free_index(used, cand)),
        free_index(used, cand) <= used.len() + 1,
{
    let l1 = (used.len() + 1) as nat;
    if used.contains(suffixed(cand, l1)) {
        // not all of 1..=len+1 can be used
        if forall|m: nat| 1 <= m <= l1 ==> used.contains(#[trigger] suffixed(cand, m)) {
            lemma_suffix_pigeonhole(used, cand, l1);
            assert(false);
        }
        let m = choose|m: nat| 1 <= m <= l1 && !used.contains(#[trigger] suffixed(cand, m));
        lemma_least_free_exists(used, cand, m);
    } else {
        lemma_least_free_exists(used, cand, l1);
    }
    let n0 = free_index(used, cand);
    assert(free_pred(used, cand, n0));
    // n0 <= used.len() + 1 by pigeonhole over 1..n0
    lemma_suffix_pigeonhole(used, cand, (n0 - 1) as nat);
}

/// The allocated destination is never one of the used paths.
pub proof fn lemma_alloc_dest_fresh(used: Set<Seq<char>>, cand: Seq<char>)
    requires
        used.finite(),
    ensures
        !used.contains(alloc_dest(used, cand)),
{
    if used.contains(cand) {
        lemma_free_index_is_free(used, cand);
    }
}

/// What it means for a path view to be in the path set of a vector.
proof fn lemma_path_set_contains(v: Seq<String>, y: Seq<char>)
    ensures
        path_set(v).contains(y) <==> exists|j: int| 0 <= j < v.len() && v[j]@ == y,
{
    let m = v.map_values(|s: String| s@);
    if m.contains(y) {
        let j = choose|j: int| 0 <= j < m.len() && m[j] == y;
        assert(v[j]@ == y);
    }
    if exists|j: int| 0 <= j < v.len() && v[j]@ == y {
        let j = choose|j: int| 0 <= j < v.len() && v[j]@ == y;
        assert(m[j] == y);
    }
}

/// Pushing a path extends the path set by its view.
proof fn lemma_path_set_push(v: Seq<String>, x: String)
    ensures
        path_set(v.push(x)) == path_set(v).insert(x@),
{
    assert(path_set(v.push(x)) =~= path_set(v).insert(x@)) by {
        assert forall|y: Seq<char>| path_set(v.push(x)).contains(y) implies path_set(v).insert(
            x@,
        ).contains(y) by {
            lemma_path_set_contains(v.push(x), y);
            lemma_path_set_contains(v, y);
            let j = choose|j: int| 0 <= j < v.push(x).len() && v.push(x)[j]@ == y;
            if j < v.len() {
                assert(v[j]@ == y);
            } else {
                assert(y == x@);
            }
        }
        assert forall|y: Seq<char>| path_set(v).insert(x@).contains(y) implies path_set(
            v.push(x),
        ).contains(y) by {
            lemma_path_set_contains(v.push(x), y);
            lemma_path_set_contains(v, y);
            if y == x@ {
                assert(v.push(x)[v.len() as int]@ == y);
            } else {
                let j = choose|j: int| 0 <= j < v.len() && v[j]@ == y;
                assert(v.push(x)[j]@ == y);
            }
        }
    }
}

/// Membership of a path in a vector of paths.
fn contains_str(v: &Vec<String>, x: &String) -> (r: bool)
    ensures
        r == path_set(v@).contains(x@),
{
    proof {
        lemma_path_set_contains(v@, x@);
    }
    let mut i: usize = 0;
    while i < v.len()
        invariant
            i <= v@.len(),
            forall|j: int| 0 <= j < i ==> v@[j]@ != x@,
            path_set(v@).contains(x@) <==> exists|j: int| 0 <= j < v@.len() && v@[j]@ == x@,
        decreases v@.len() - i,
    {
        if v[i] == *x {
            proof {
                assert(v@[i as int]@ == x@);
            }
            return true;
        }
        i = i + 1;
    }
    proof {
        if path_set(v@).contains(x@) {
            let j = choose|j: int| 0 <= j < v@.len() && v@[j]@ == x@;
            assert(false);
        }
    }
    false
}

fn make_suffixed(prefix: &String, ext: &String, fidx: u64) -> (r: String)
    ensures
        r@ == prefix@ + dec_of(fidx as nat) + ext@,
{
    let digits = render_u64(fidx);
    let mut r = prefix.clone();
    r.append(digits.as_str());
    r.append(ext.as_str());
    r
}

/// Appends the copy of `src` to the destination the allocator picks for the
/// candidate `pdst`: the candidate itself when no earlier copy claimed it,
/// else its variant with the smallest free `-<n>` suffix.  The chosen
/// destination is recorded as used.
pub fn checked_add_to_copylist(
    clist: &mut CopyList,
    outpaths: &mut Vec<String>,
    src: String,
    pdst: &String,
)
    requires
        old(outpaths)@.len() < usize::MAX,
    ensures
        ({
            let used = path_set(old(outpaths)@);
            let dest = alloc_dest(used, pdst@);
            &&& pairs_view(final(clist)@) == pairs_view(old(clist)@).push((src@, dest))
            &&& path_set(final(outpaths)@) == used.insert(dest)
            &&& final(outpaths)@.len() == old(outpaths)@.len() + 1
        }),
{
    proof {
        broadcast use seq_to_set_is_finite;

        outpaths@.map_values(|s: String| s@).lemma_cardinality_of_set();
    }
    let ghost used = path_set(outpaths@);
    if !contains_str(outpaths, pdst) {
        outpaths.push(pdst.clone());
        clist.push((src, pdst.clone()));
        proof {
            lemma_path_set_push(old(outpaths)@, *pdst);
            assert(pairs_view(clist@) =~= pairs_view(old(clist)@).push((src@, pdst@)));
        }
    } else {
        proof {
            lemma_free_index_is_free(used, pdst@);
        }
        let ghost n0 = free_index(used, pdst@);
        let (prefix, ext) = split_for_suffix(pdst.as_str());
        let mut fidx: u64 = 1;
        let mut cand_n = make_suffixed(&prefix, &ext, fidx);
        proof {
            assert(cand_n@ =~= suffixed(pdst@, fidx as nat));
        }
        while contains_str(outpaths, &cand_n)
            invariant
                outpaths@ == old(outpaths)@,
                clist@ == old(clist)@,
                used == path_set(outpaths@),
                used.finite(),
                free_pred(used, pdst@, n0),
                1 <= fidx <= n0,
                n0 <= used.len() + 1,
                used.len() <= outpaths@.len() < usize::MAX,
                cand_n@ == suffixed(pdst@, fidx as nat),
                prefix@ == dir_pre_of(pdst@) + stem_of(basename_of(pdst@)) + seq!['-'],
                ext@ == ext_of(basename_of(pdst@)),
                forall|m: nat| 1 <= m < fidx ==> used.contains(#[trigger] suffixed(pdst@, m)),
            decreases n0 - fidx,
        {
            proof {
                assert(used.contains(suffixed(pdst@, fidx as nat)));
                if fidx as nat == n0 {
                    assert(false);
                }
            }
            fidx = fidx + 1;
            cand_n = make_suffixed(&prefix, &ext, fidx);
            proof {
                assert(cand_n@ =~= suffixed(pdst@, fidx as nat));
            }
        }
        proof {
            assert(free_pred(used, pdst@, fidx as nat));
            lemma_free_pred_unique(used, pdst@, fidx as nat, n0);
            assert(cand_n@ == alloc_dest(used, pdst@));
        }
        outpaths.push(cand_n.clone());
        clist.push((src, cand_n));
        proof {
            lemma_path_set_push(old(outpaths)@, final(outpaths)@[old(outpaths)@.len() as int]);
            assert(pairs_view(clist@) =~= pairs_view(old(clist)@).push(
                (src@, alloc_dest(used, pdst@)),
            ));
        }
    }
}

// ---------------------------------------------------------------------------
// The plan as a function of the scanned data
// ---------------------------------------------------------------------------

/// The part of the options that the planner reads.
pub struct ConfigV {
    pub fast_hash: bool,
    pub ignore_exif: bool,
    pub out_dir: Seq<char>,
}

impl Options {
    /// The planner's view of these options.
    pub open spec fn plan_config(&self) -> ConfigV {
        ConfigV {
            fast_hash: self.fast_hash,
            ignore_exif: self.ignore_exif,
            out_dir: self.out_dir@,
        }
    }
}

/// The views of the scanned entries.
pub open spec fn entries_view(s: Seq<ScanEntry>) -> Seq<EntryV> {
    s.map_values(|e: ScanEntry| e@)
}

/// The fingerprint the bucketing pass computes for an entry.
pub open spec fn entry_fp(e: EntryV, fast_hash: bool) -> Seq<u8> {
    fingerprint_of(e.content, fast_hash)
}

/// The `(year, month)` an entry resolves to.
pub open spec fn entry_date(e: EntryV, ignore_exif: bool) -> (int, int) {
    resolved_date_of(e.content, ignore_exif, e.fs_year, e.fs_month)
}

/// The destination candidate of an entry.
pub open spec fn entry_candidate(cfg: ConfigV, e: EntryV) -> Seq<char> {
    dest_candidate(
        cfg.out_dir,
        e.path,
        entry_date(e, cfg.ignore_exif).0,
        entry_date(e, cfg.ignore_exif).1,
    )
}

/// The in-progress planning state: the fingerprint bucket (each fingerprint
/// mapped to the index of its first, representative entry), the set of
/// destination paths already claimed, and the plan built so far.
pub struct PlanStateV {
    pub bucket: Map<Seq<u8>, int>,
    pub used: Set<Seq<char>>,
    pub plan: Seq<(Seq<char>, Seq<char>)>,
}

/// The state a planning run starts from.
pub open spec fn init_state() -> PlanStateV {
    PlanStateV { bucket: Map::empty(), used: Set::empty(), plan: Seq::empty() }
}

/// Whether the entry at `i` is judged a duplicate in state `st`: its
/// fingerprint already has a representative and — under quick fidelity,
/// where equal fingerprints are inconclusive — the full digests agree too.
pub open spec fn is_dup(cfg: ConfigV, s: Seq<EntryV>, i: int, st: PlanStateV) -> bool {
    let fp = entry_fp(s[i], cfg.fast_hash);
    &&& st.bucket.contains_key(fp)
    &&& (!cfg.fast_hash || sha256_of(s[st.bucket[fp]].content) == sha256_of(s[i].content))
}

/// One planning step: bucket the entry, discard it when it is a duplicate,
/// otherwise date and name it and allocate its destination.
pub open spec fn plan_step(cfg: ConfigV, s: Seq<EntryV>, i: int, st: PlanStateV) -> Result<
    PlanStateV,
    Seq<char>,
> {
    let fp = entry_fp(s[i], cfg.fast_hash);
    let bucket1 = if st.bucket.contains_key(fp) {
        st.bucket
    } else {
        st.bucket.insert(fp, i)
    };
    if is_dup(cfg, s, i, st) {
        Ok(PlanStateV { bucket: bucket1, used: st.used, plan: st.plan })
    } else if basename_of(s[i].path).len() == 0 {
        Err(s[i].path)
    } else {
        let dest = alloc_dest(st.used, entry_candidate(cfg, s[i]));
        Ok(
            PlanStateV {
                bucket: bucket1,
                used: st.used.insert(dest),
                plan: st.plan.push((s[i].path, dest)),
            },
        )
    }
}

/// The rest of a planning run, from entry `i` in state `st`.
pub open spec fn plan_rec(cfg: ConfigV, s: Seq<EntryV>, i: int, st: PlanStateV) -> Result<
    Seq<(Seq<char>, Seq<char>)>,
    Seq<char>,
>
    decreases s.len() - i,
{
    if i < 0 || i >= s.len() {
        Ok(st.plan)
    } else {
        match plan_step(cfg, s, i, st) {
            Ok(st1) => plan_rec(cfg, s, i + 1, st1),
            Err(p) => Err(p),
        }
    }
}

/// The plan of a scanned batch under a configuration: the ordered copy
/// list, or else the first source path with no extractable file name.
pub open spec fn plan_of(cfg: ConfigV, s: Seq<EntryV>) -> Result<
    Seq<(Seq<char>, Seq<char>)>,
    Seq<char>,
> {
    plan_rec(cfg, s, 0, init_state())
}

/// Looks up a fingerprint among the bucketed ones.
fn bucket_lookup(bucket: &Vec<(Vec<u8>, usize)>, fp: &Vec<u8>) -> (r: Option<usize>)
    ensures
        match r {
            Some(idx) => exists|j: int|
                0 <= j < bucket@.len() && (#[trigger] bucket@[j]).0@ == fp@ && bucket@[j].1 == idx,
            None => forall|j: int| 0 <= j < bucket@.len() ==> (#[trigger] bucket@[j]).0@ != fp@,
        },
{
    let mut i: usize = 0;
    while i < bucket.len()
        invariant
            i <= bucket@.len(),
            forall|j: int| 0 <= j < i ==> (#[trigger] bucket@[j]).0@ != fp@,
        decreases bucket@.len() - i,
    {
        if bytes_eq(&bucket[i].0, fp) {
            return Some(bucket[i].1);
        }
        i = i + 1;
    }
    None
}

/// Plans a scanned batch: entries whose content was already planned are
/// dropped, the rest are dated and named in scan order, and clashing
/// destinations are deconflicted.  The result is exactly `plan_of` over the
/// entries' views; the first source path with no extractable file name
/// aborts the run.
pub fn filter_repeated(opts: &Options, scandata: &Vec<ScanEntry>) -> (r: Result<
    CopyList,
    PathError,
>)
    ensures
        match r {
            Ok(clist) => plan_of(opts.plan_config(), entries_view(scandata@)) == Ok::<
                Seq<(Seq<char>, Seq<char>)>,
                Seq<char>,
            >(pairs_view(clist@)),
            Err(e) => plan_of(opts.plan_config(), entries_view(scandata@)) == Err::<
                Seq<(Seq<char>, Seq<char>)>,
                Seq<char>,
            >(e.path@),
        },
{
    let ghost cfg = opts.plan_config();
    let ghost s = entries_view(scandata@);
    let mut clist: CopyList = Vec::new();
    let mut bucket: Vec<(Vec<u8>, usize)> = Vec::new();
    let mut outpaths: Vec<String> = Vec::new();
    let ghost mut st = init_state();
    let mut i: usize = 0;
    while i < scandata.len()
        invariant
            i <= s.len(),
            s == entries_view(scandata@),
            s.len() == scandata@.len(),
            cfg == opts.plan_config(),
            plan_rec(cfg, s, i as int, st) == plan_of(cfg, s),
            forall|j: int|
                0 <= j < bucket@.len() ==> (#[trigger] bucket@[j]).1 < i && st.bucket.contains_key(
                    bucket@[j].0@,
                ) && st.bucket[bucket@[j].0@] == bucket@[j].1 as int,
            forall|fp: Seq<u8>| #[trigger]
                st.bucket.contains_key(fp) ==> exists|j: int|
                    0 <= j < bucket@.len() && (#[trigger] bucket@[j]).0@ == fp,
            forall|fp: Seq<u8>| #[trigger]
                st.bucket.contains_key(fp) ==> 0 <= st.bucket[fp] < i && entry_fp(
                    s[st.bucket[fp]],
                    cfg.fast_hash,
                ) == fp,
            st.used == path_set(outpaths@),
            outpaths@.len() <= i,
            st.plan == pairs_view(clist@),
        decreases s.len() - i,
    {
        proof {
            assert(s[i as int] == scandata@[i as int]@);
        }
        let ghost st0 = st;
        let fp = hash_file(&scandata[i].content, opts.fast_hash);
        let ghost fpv = fp@;
        let place: bool;
        match bucket_lookup(&bucket, &fp) {
            None => {
                proof {
                    if st.bucket.contains_key(fpv) {
                        assert(false);
                    }
                    st = PlanStateV {
                        bucket: st.bucket.insert(fpv, i as int),
                        used: st.used,
                        plan: st.plan,
                    };
                }
                let ghost bucket0 = bucket@;
                bucket.push((fp, i));
                proof {
                    assert forall|k: Seq<u8>| #[trigger] st.bucket.contains_key(k) implies exists|
                        j: int,
                    | 0 <= j < bucket@.len() && (#[trigger] bucket@[j]).0@ == k by {
                        if k == fpv {
                            assert(bucket@[bucket@.len() - 1].0@ == k);
                        } else {
                            assert(st0.bucket.contains_key(k));
                            let j = choose|j: int|
                                0 <= j < bucket0.len() && (#[trigger] bucket0[j]).0@ == k;
                            assert(bucket@[j].0@ == k);
                        }
                    }
                }
                place = true;
            },
            Some(rep) => {
                proof {
                    assert(st.bucket.contains_key(fpv) && st.bucket[fpv] == rep as int);
                    assert(s[rep as int] == scandata@[rep as int]@);
                }
                if !opts.fast_hash {
                    place = false;
                } else {
                    let h_old = hash_file(&scandata[rep].content, false);
                    let h_new = hash_file(&scandata[i].content, false);
                    place = !bytes_eq(&h_old, &h_new);
                }
            },
        }
        if place {
            let (y, m) = resolve_date(
                &scandata[i].content,
                opts.ignore_exif,
                scandata[i].fs_year,
                scandata[i].fs_month,
            );
            match make_outpath(opts.out_dir.as_str(), scandata[i].path.as_str(), y, m) {
                Err(pe) => {
                    proof {
                        assert(plan_step(cfg, s, i as int, st0) == Err::<PlanStateV, Seq<char>>(
                            s[i as int].path,
                        ));
                    }
                    return Err(pe);
                },
                Ok(cand) => {
                    proof {
                        assert(cand@ == entry_candidate(cfg, s[i as int]));
                    }
                    checked_add_to_copylist(
                        &mut clist,
                        &mut outpaths,
                        scandata[i].path.clone(),
                        &cand,
                    );
                    proof {
                        let dest = alloc_dest(st.used, cand@);
                        st = PlanStateV {
                            bucket: st.bucket,
                            used: st.used.insert(dest),
                            plan: st.plan.push((s[i as int].path, dest)),
                        };
                    }
                },
            }
        }
        proof {
            assert(plan_step(cfg, s, i as int, st0) == Ok::<PlanStateV, Seq<char>>(st));
        }
        i = i + 1;
    }
    proof {
        assert(plan_rec(cfg, s, i as int, st) == Ok::<Seq<(Seq<char>, Seq<char>)>, Seq<char>>(
            st.plan,
        ));
    }
    Ok(clist)
}

} // verus!
