//! Indexing a walked source tree: which entries are probed, which are kept
//! and under which virtual paths, which failures end the scan, and the
//! order of the result.
use vstd::prelude::*;

use crate::json::spec_parse_json;
use crate::media::{
    is_atmos_eac3_probe_json, is_m4a_path, is_unique_choice, mkv_text, path_views,
    spec_is_m4a_path, spec_probe_is_atmos_eac3, unique_virtual_path, virtual_path_for, FileTime,
    MediaItem, MediaItemView, ScanError,
};
use crate::order::{lemma_path_lt_transitive, path_less, path_lt};
use crate::path::{
    extension, lemma_last_dot_at, lemma_last_dot_range, lemma_strip_prefix_wf,
    lemma_with_extension_wf, name_extension, name_stem, path_wf, render, strip_prefix, valid_name,
    with_extension, Component, FsPath,
};
use crate::text::decimal;

verus! {

/// One file or directory met by the walk of the source tree, with what its
/// metadata gave.
pub struct SourceEntry {
    pub path: FsPath,
    /// The entry is a regular file (links are not followed).
    pub is_file: bool,
    /// The size from the metadata, or why the metadata could not be read.
    pub size: Result<u64, String>,
    /// The modification time, or why it could not be read.
    pub mtime: Result<FileTime, String>,
}

/// Asks `ffprobe`, or whatever stands in for it, for the JSON report of a
/// file.
pub trait ProbeRunner {
    fn probe_json(&self, path: &FsPath) -> Result<String, String>;
}

/// Where the scan stops: the index of the failing entry, or the number of
/// entries when it succeeds.
pub open spec fn scan_stop(
    root: Seq<Component>,
    entries: Seq<Result<SourceEntry, String>>,
    answers: Seq<Result<String, String>>,
) -> int {
    match scan_prefix(root, entries, answers, entries.len()) {
        Ok(_) => entries.len() as int,
        Err((_, i)) => i,
    }
}

/// For a candidate entry, `answer` is a result that `runner.probe_json`
/// gives for the entry's own path.
pub open spec fn entry_answered<R: ProbeRunner>(
    runner: &R,
    entry: Result<SourceEntry, String>,
    answer: Result<String, String>,
) -> bool {
    match entry {
        Ok(e) => is_candidate(e) ==> call_ensures(R::probe_json, (runner, &e.path), answer),
        Err(_) => true,
    }
}

/// Up to entry `upto`, the answer for each candidate is a result of the
/// runner's probe of that candidate's own path.
pub open spec fn answers_from<R: ProbeRunner>(
    runner: &R,
    entries: Seq<Result<SourceEntry, String>>,
    answers: Seq<Result<String, String>>,
    upto: int,
) -> bool {
    forall|k: int| 0 <= k < entries.len() && k <= upto ==> #[trigger] entry_answered(runner, entries[k], answers[k])
}

/// The kinds of failure that end a scan.
pub enum ScanFailKind {
    Walk,
    Stat,
    OutsideRoot,
    Mtime,
}

/// A walk whose entries all hold well-formed paths (as parsed ones do).
pub open spec fn entries_wf(entries: Seq<Result<SourceEntry, String>>) -> bool {
    forall|i: int| 0 <= i < entries.len() ==> (#[trigger] entries[i] matches Ok(e) ==> path_wf(e.path@))
}

/// An entry that is probed: a regular file named `*.m4a` in any case.
pub open spec fn is_candidate(e: SourceEntry) -> bool {
    e.is_file && spec_is_m4a_path(e.path@)
}

/// The probe answered with a report of an E-AC-3 stream with an Atmos
/// marker; a failed probe skips the file.
pub open spec fn probe_accepts(answer: Result<String, String>) -> bool {
    match answer {
        Ok(json) => match spec_parse_json(json@) {
            Some(v) => spec_probe_is_atmos_eac3(v),
            None => false,
        },
        Err(_) => false,
    }
}

pub open spec fn item_views(items: Seq<MediaItem>) -> Seq<MediaItemView> {
    items.map_values(|m: MediaItem| m@)
}

pub open spec fn virtual_paths(items: Seq<MediaItemView>) -> Seq<Seq<Component>> {
    items.map_values(|m: MediaItemView| m.virtual_path)
}

/// The path that `unique_virtual_path` picks for `p` next to `existing`.
pub open spec fn spec_unique_path(p: Seq<Component>, existing: Seq<Seq<Component>>) -> Seq<Component> {
    choose|r: Seq<Component>| is_unique_choice(p, existing, r)
}

/// The pick of `unique_virtual_path` is determined by its inputs.
pub proof fn lemma_unique_choice_unique(
    p: Seq<Component>,
    existing: Seq<Seq<Component>>,
    r1: Seq<Component>,
    r2: Seq<Component>,
)
    requires
        is_unique_choice(p, existing, r1),
        is_unique_choice(p, existing, r2),
    ensures
        r1 == r2,
{
    if existing.contains(p) {
        let k1 = choose|k: nat|
            #![trigger crate::media::numbered_candidate(p, k)]
            {
                &&& k >= 2
                &&& r1 == crate::media::numbered_candidate(p, k)
                &&& !existing.contains(r1)
                &&& forall|j: nat| 2 <= j < k ==> existing.contains(#[trigger] crate::media::numbered_candidate(p, j))
            };
        let k2 = choose|k: nat|
            #![trigger crate::media::numbered_candidate(p, k)]
            {
                &&& k >= 2
                &&& r2 == crate::media::numbered_candidate(p, k)
                &&& !existing.contains(r2)
                &&& forall|j: nat| 2 <= j < k ==> existing.contains(#[trigger] crate::media::numbered_candidate(p, j))
            };
        if k1 < k2 {
            assert(existing.contains(crate::media::numbered_candidate(p, k1)));
        } else if k2 < k1 {
            assert(existing.contains(crate::media::numbered_candidate(p, k2)));
        }
    }
}

/// The items after one more entry of the walk, or the kind of failure.
pub open spec fn scan_entry(
    root: Seq<Component>,
    items: Seq<MediaItemView>,
    entry: Result<SourceEntry, String>,
    answer: Result<String, String>,
) -> Result<Seq<MediaItemView>, ScanFailKind> {
    match entry {
        Err(_) => Err(ScanFailKind::Walk),
        Ok(e) => if !is_candidate(e) || !probe_accepts(answer) {
            Ok(items)
        } else if e.size is Err {
            Err(ScanFailKind::Stat)
        } else {
            match strip_prefix(e.path@, root) {
                None => Err(ScanFailKind::OutsideRoot),
                Some(rel) => match e.mtime {
                    Err(_) => Err(ScanFailKind::Mtime),
                    Ok(t) => Ok(
                        items.push(
                            MediaItemView {
                                source_path: e.path@,
                                source_text: e.path.text@,
                                relative_m4a: rel,
                                relative_text: render(rel),
                                virtual_path: spec_unique_path(
                                    with_extension(rel, mkv_text()),
                                    virtual_paths(items),
                                ),
                                virtual_text: render(
                                    spec_unique_path(with_extension(rel, mkv_text()), virtual_paths(items)),
                                ),
                                size: e.size->Ok_0,
                                mtime: t,
                            },
                        ),
                    ),
                },
            }
        },
    }
}

/// The items indexed from the first `n` entries of the walk, in walk order,
/// or the first failure with the index of its entry.  `answers[i]` is what
/// the probe answered for entry `i`; it is read only for candidates.
pub open spec fn scan_prefix(
    root: Seq<Component>,
    entries: Seq<Result<SourceEntry, String>>,
    answers: Seq<Result<String, String>>,
    n: nat,
) -> Result<Seq<MediaItemView>, (ScanFailKind, int)>
    decreases n,
{
    if n == 0 {
        Ok(Seq::empty())
    } else {
        match scan_prefix(root, entries, answers, (n - 1) as nat) {
            Err(f) => Err(f),
            Ok(items) => match scan_entry(root, items, entries[n - 1], answers[n - 1]) {
                Ok(next) => Ok(next),
                Err(k) => Err((k, n - 1)),
            },
        }
    }
}

/// `e` is the error of a failure of kind `kind` at `entry`.
pub open spec fn error_is(
    e: ScanError,
    root: Seq<Component>,
    entry: Result<SourceEntry, String>,
    kind: ScanFailKind,
) -> bool {
    match kind {
        ScanFailKind::Walk => {
            &&& entry matches Err(m)
            &&& e matches ScanError::Walk { root: t, message }
            &&& t@ == render(root)
            &&& message@ == m@
        },
        ScanFailKind::Stat => {
            &&& entry matches Ok(s)
            &&& s.size matches Err(m)
            &&& e matches ScanError::Stat { path, message }
            &&& path@ == render(s.path@)
            &&& message@ == m@
        },
        ScanFailKind::OutsideRoot => {
            &&& entry matches Ok(s)
            &&& e matches ScanError::OutsideRoot { file, root: t }
            &&& file@ == render(s.path@)
            &&& t@ == render(root)
        },
        ScanFailKind::Mtime => {
            &&& entry matches Ok(s)
            &&& s.mtime matches Err(m)
            &&& e matches ScanError::Mtime { path, message }
            &&& path@ == render(s.path@)
            &&& message@ == m@
        },
    }
}

/// No item comes after one with a greater virtual path.
pub open spec fn sorted_by_virtual_path(items: Seq<MediaItemView>) -> bool {
    forall|i: int, j: int|
        0 <= i < j < items.len() ==> !path_lt(#[trigger] items[j].virtual_path, #[trigger] items[i].virtual_path)
}

/// No two items share a virtual path.
pub open spec fn distinct_virtual_paths(items: Seq<MediaItemView>) -> bool {
    forall|i: int, j: int|
        0 <= i < j < items.len() ==> #[trigger] items[i].virtual_path != #[trigger] items[j].virtual_path
}

/// `r` is the result of scanning `entries` below `root` with these probe
/// answers: the indexed items sorted by virtual path, or the error of the
/// first failure.
pub open spec fn scan_result_is(
    root: Seq<Component>,
    entries: Seq<Result<SourceEntry, String>>,
    answers: Seq<Result<String, String>>,
    r: Result<Vec<MediaItem>, ScanError>,
) -> bool {
    match scan_prefix(root, entries, answers, entries.len()) {
        Ok(items) => {
            &&& r matches Ok(v)
            &&& item_views(v@).to_multiset() == items.to_multiset()
            &&& sorted_by_virtual_path(item_views(v@))
            &&& v@.len() == exposed_count(root, entries, answers, entries.len())
        },
        Err((kind, i)) => {
            &&& r matches Err(e)
            &&& error_is(e, root, entries[i], kind)
        },
    }
}

/// A failure of the scan stays a failure whatever entries follow.
pub proof fn lemma_scan_failure_persists(
    root: Seq<Component>,
    entries: Seq<Result<SourceEntry, String>>,
    answers: Seq<Result<String, String>>,
    n: nat,
    m: nat,
)
    requires
        n <= m,
        scan_prefix(root, entries, answers, n) is Err,
    ensures
        scan_prefix(root, entries, answers, m) == scan_prefix(root, entries, answers, n),
    decreases m - n,
{
    if n < m {
        lemma_scan_failure_persists(root, entries, answers, n, (m - 1) as nat);
    }
}

/// The items of a successful scan prefix have distinct virtual paths.
pub proof fn lemma_scan_paths_distinct(
    root: Seq<Component>,
    entries: Seq<Result<SourceEntry, String>>,
    answers: Seq<Result<String, String>>,
    n: nat,
)
    requires
        n <= entries.len(),
        entries_wf(entries),
        scan_prefix(root, entries, answers, n) is Ok,
    ensures
        distinct_virtual_paths(scan_prefix(root, entries, answers, n)->Ok_0),
    decreases n,
{
    if n > 0 {
        lemma_scan_paths_distinct(root, entries, answers, (n - 1) as nat);
        let items = scan_prefix(root, entries, answers, (n - 1) as nat)->Ok_0;
        let next = scan_prefix(root, entries, answers, n)->Ok_0;
        if next != items {
            let e = entries[n - 1]->Ok_0;
            let rel = strip_prefix(e.path@, root)->Some_0;
            let p = with_extension(rel, mkv_text());
            let ex = virtual_paths(items);
            lemma_unique_choice_exists(p, ex);
            let r = spec_unique_path(p, ex);
            assert(!ex.contains(r));
            assert forall|i: int, j: int| 0 <= i < j < next.len() implies
                #[trigger] next[i].virtual_path != #[trigger] next[j].virtual_path by {
                if j == next.len() - 1 {
                    assert(ex[i] == next[i].virtual_path);
                } else {
                    assert(next[i] == items[i]);
                    assert(next[j] == items[j]);
                }
            }
        }
    }
}

/// Some path is always free: among the first numbered candidates, more
/// than there are existing paths, one is not taken.
pub proof fn lemma_unique_choice_exists(p: Seq<Component>, existing: Seq<Seq<Component>>)
    ensures
        is_unique_choice(p, existing, spec_unique_path(p, existing)),
{
    if !existing.contains(p) {
        assert(is_unique_choice(p, existing, p));
    } else {
        let all = existing.to_set();
        assert(all =~= all.difference(
            Set::new(|q: Seq<Component>| exists|j: nat| 2 <= j < 2 && q == crate::media::numbered_candidate(p, j)),
        ));
        lemma_free_candidate_from(p, existing, 2, all);
    }
}

/// The counting step of `lemma_unique_choice_exists`: `rest` holds the
/// existing paths that are not among the candidates below `k`.
proof fn lemma_free_candidate_from(
    p: Seq<Component>,
    existing: Seq<Seq<Component>>,
    k: nat,
    rest: Set<Seq<Component>>,
)
    requires
        existing.contains(p),
        k >= 2,
        forall|j: nat| 2 <= j < k ==> existing.contains(#[trigger] crate::media::numbered_candidate(p, j)),
        rest.finite(),
        rest =~= existing.to_set().difference(
            Set::new(|q: Seq<Component>| exists|j: nat| 2 <= j < k && q == crate::media::numbered_candidate(p, j)),
        ),
    ensures
        is_unique_choice(p, existing, spec_unique_path(p, existing)),
    decreases rest.len(),
{
    let c = crate::media::numbered_candidate(p, k);
    if !existing.contains(c) {
        assert(is_unique_choice(p, existing, c));
    } else {
        assert forall|j: nat| 2 <= j < k implies c != crate::media::numbered_candidate(p, j) by {
            if c == crate::media::numbered_candidate(p, j) {
                crate::media::lemma_numbered_candidate_injective(p, k, j);
            }
        }
        assert(existing.to_set().contains(c));
        assert(rest.contains(c));
        let next = rest.remove(c);
        assert(next =~= existing.to_set().difference(
            Set::new(|q: Seq<Component>| exists|j: nat| 2 <= j < k + 1 && q == crate::media::numbered_candidate(p, j)),
        )) by {
            assert forall|q: Seq<Component>| next.contains(q) <==> existing.to_set().difference(
                Set::new(|q: Seq<Component>| exists|j: nat| 2 <= j < k + 1 && q == crate::media::numbered_candidate(p, j)),
            ).contains(q) by {
                if q == c {
                    assert(exists|j: nat| 2 <= j < k + 1 && q == crate::media::numbered_candidate(p, j)) by {
                        assert(q == crate::media::numbered_candidate(p, k));
                    }
                }
                if exists|j: nat| 2 <= j < k + 1 && q == crate::media::numbered_candidate(p, j) {
                    let j = choose|j: nat| 2 <= j < k + 1 && q == crate::media::numbered_candidate(p, j);
                    if j < k {
                        assert(exists|j: nat| 2 <= j < k && q == crate::media::numbered_candidate(p, j));
                    }
                }
            }
        }
        lemma_free_candidate_from(p, existing, k + 1, next);
    }
}

/// Indexes one entry of the walk, given the probe's answer for it.
fn index_entry(
    root: &FsPath,
    entry: &Result<SourceEntry, String>,
    answer: &Result<String, String>,
    items: &mut Vec<MediaItem>,
    vpaths: &mut Vec<FsPath>,
) -> (r: Result<(), ScanError>)
    requires
        entry matches Ok(e) ==> path_wf(e.path@),
        path_views(old(vpaths)@) == virtual_paths(item_views(old(items)@)),
    ensures
        match scan_entry(root@, item_views(old(items)@), *entry, *answer) {
            Ok(next) => {
                &&& r is Ok
                &&& item_views(final(items)@) == next
                &&& path_views(final(vpaths)@) == virtual_paths(next)
            },
            Err(kind) => {
                &&& r matches Err(e)
                &&& error_is(e, root@, *entry, kind)
            },
        },
{
    let e = match entry {
        Err(m) => return Err(ScanError::Walk { root: root.render(), message: m.clone() }),
        Ok(e) => e,
    };
    if !e.is_file || !is_m4a_path(&e.path) {
        return Ok(());
    }
    let accepted = match answer {
        Ok(json) => is_atmos_eac3_probe_json(json.as_str()),
        Err(_) => false,
    };
    if !accepted {
        return Ok(());
    }
    let size = match &e.size {
        Err(m) => return Err(ScanError::Stat { path: e.path.render(), message: m.clone() }),
        Ok(size) => *size,
    };
    let relative = match e.path.strip_prefix(root) {
        None => return Err(ScanError::OutsideRoot { file: e.path.render(), root: root.render() }),
        Some(rel) => rel,
    };
    let candidate = match virtual_path_for(root, &e.path) {
        Ok(v) => v,
        Err(err) => return Err(err),
    };
    proof {
        lemma_strip_prefix_wf(e.path@, root@);
        assert(!mkv_text().contains('/')) by {
            assert forall|j: int| 0 <= j < mkv_text().len() implies mkv_text()[j] != '/' by {}
        }
        lemma_with_extension_wf(relative@, mkv_text());
    }
    let virtual_path = unique_virtual_path(&candidate, vpaths);
    let mtime = match &e.mtime {
        Err(m) => return Err(ScanError::Mtime { path: e.path.render(), message: m.clone() }),
        Ok(t) => *t,
    };
    let ghost old_items = item_views(items@);
    let ghost ex = virtual_paths(old_items);
    proof {
        lemma_unique_choice_exists(candidate@, ex);
        lemma_unique_choice_unique(candidate@, ex, virtual_path@, spec_unique_path(candidate@, ex));
    }
    let ghost old_vpaths = path_views(vpaths@);
    let ghost vp = virtual_path@;
    vpaths.push(virtual_path.duplicate());
    assert(path_views(vpaths@) =~= old_vpaths.push(vp));
    items.push(MediaItem { source_path: e.path.duplicate(), relative_m4a: relative, virtual_path, size, mtime });
    proof {
        let next = old_items.push(items@.last()@);
        assert(item_views(items@) =~= next);
        assert(path_views(vpaths@) =~= virtual_paths(next));
    }
    Ok(())
}

/// Indexes the walk of the source tree below `root`, given what the probe
/// answered for each entry (`answers[i]` for `entries[i]`, read only for
/// `.m4a` files): the Atmos files under their virtual paths, sorted by
/// virtual path, or the first failure.
pub fn index_probed(
    root: &FsPath,
    entries: &Vec<Result<SourceEntry, String>>,
    answers: &Vec<Result<String, String>>,
) -> (r: Result<Vec<MediaItem>, ScanError>)
    requires
        entries_wf(entries@),
        answers.len() == entries.len(),
    ensures
        scan_result_is(root@, entries@, answers@, r),
        r matches Ok(v) ==> distinct_virtual_paths(item_views(v@)),
        r matches Ok(v) ==> forall|k: int| 0 <= k < v@.len() ==> keeps_layout(#[trigger] item_views(v@)[k]),
{
    let mut items: Vec<MediaItem> = Vec::new();
    let mut vpaths: Vec<FsPath> = Vec::new();
    let n = entries.len();
    assert(item_views(items@) =~= Seq::<MediaItemView>::empty());
    assert(path_views(vpaths@) =~= virtual_paths(item_views(items@)));
    for i in 0..n
        invariant
            n == entries@.len(),
            answers@.len() == n,
            entries_wf(entries@),
            scan_prefix(root@, entries@, answers@, i as nat) == Ok::<Seq<MediaItemView>, (ScanFailKind, int)>(item_views(items@)),
            path_views(vpaths@) == virtual_paths(item_views(items@)),
    {
        assert(entries@[i as int] matches Ok(e) ==> path_wf(e.path@));
        match index_entry(root, &entries[i], &answers[i], &mut items, &mut vpaths) {
            Ok(()) => {},
            Err(e) => {
                proof {
                    lemma_scan_failure_persists(root@, entries@, answers@, (i + 1) as nat, n as nat);
                }
                return Err(e);
            },
        }
    }
    proof {
        lemma_scan_paths_distinct(root@, entries@, answers@, n as nat);
    }
    let sorted = sort_by_virtual_path(items);
    proof {
        lemma_permutation_keeps_distinct(
            item_views(sorted@),
            scan_prefix(root@, entries@, answers@, n as nat)->Ok_0,
        );
        lemma_scan_exposes_accepted_mkv(root@, entries@, answers@, n as nat);
        lemma_permutation_keeps_layout(item_views(sorted@), scan_prefix(root@, entries@, answers@, n as nat)->Ok_0);
        lemma_sorted_count(root@, entries@, answers@, sorted@);
    }
    Ok(sorted)
}

/// Reordering items keeps their virtual paths distinct.
pub proof fn lemma_permutation_keeps_distinct(s: Seq<MediaItemView>, v: Seq<MediaItemView>)
    requires
        s.to_multiset() == v.to_multiset(),
        distinct_virtual_paths(v),
    ensures
        distinct_virtual_paths(s),
{
    broadcast use vstd::seq_lib::group_to_multiset_ensures;
    assert(v.no_duplicates()) by {
        assert forall|i: int, j: int| 0 <= i < v.len() && 0 <= j < v.len() && i != j implies v[i] != v[j] by {
            if i < j {
                assert(v[i].virtual_path != v[j].virtual_path);
            } else {
                assert(v[j].virtual_path != v[i].virtual_path);
            }
        }
    }
    v.lemma_multiset_has_no_duplicates();
    s.lemma_multiset_has_no_duplicates_conv();
    assert forall|i: int, j: int| 0 <= i < j < s.len() implies
        #[trigger] s[i].virtual_path != #[trigger] s[j].virtual_path by {
        assert(s.to_multiset().count(s[i]) > 0);
        assert(s.to_multiset().count(s[j]) > 0);
        assert(v.contains(s[i]));
        assert(v.contains(s[j]));
        let a = choose|a: int| 0 <= a < v.len() && v[a] == s[i];
        let b = choose|b: int| 0 <= b < v.len() && v[b] == s[j];
        assert(s[i] != s[j]);
        if a < b {
            assert(v[a].virtual_path != v[b].virtual_path);
        } else {
            assert(v[b].virtual_path != v[a].virtual_path);
        }
    }
}

/// The items in order of their virtual paths; items with equal paths keep
/// their order.
fn sort_by_virtual_path(items: Vec<MediaItem>) -> (r: Vec<MediaItem>)
    ensures
        item_views(r@).to_multiset() == item_views(items@).to_multiset(),
        sorted_by_virtual_path(item_views(r@)),
{
    broadcast use vstd::seq_lib::group_to_multiset_ensures;
    let ghost all = item_views(items@);
    let mut rest = items;
    let mut sorted: Vec<MediaItem> = Vec::new();
    let ghost mut done: int = 0;
    assert(item_views(rest@) =~= all.subrange(0, all.len() as int));
    assert(item_views(sorted@) =~= all.subrange(0, 0));
    while rest.len() > 0
        invariant
            0 <= done <= all.len(),
            item_views(rest@) == all.subrange(done, all.len() as int),
            item_views(sorted@).to_multiset() == all.subrange(0, done).to_multiset(),
            sorted_by_virtual_path(item_views(sorted@)),
        decreases rest.len(),
    {
        let ghost before = item_views(sorted@);
        let ghost rv = item_views(rest@);
        assert(rv.len() == rest@.len());
        assert(rv[0] == rest@[0]@);
        assert(rv[0] == all[done]);
        let ghost old_rest = rest@;
        let it = rest.remove(0);
        assert(it@ == all[done]);
        assert forall|k: int| 0 <= k < rest@.len() implies #[trigger] item_views(rest@)[k] == all[done + 1 + k] by {
            assert(rest@[k] == old_rest[k + 1]);
            assert(rv[k + 1] == old_rest[k + 1]@);
            assert(rv[k + 1] == all.subrange(done, all.len() as int)[k + 1]);
        }
        assert(item_views(rest@) =~= all.subrange(done + 1, all.len() as int));
        let mut pos: usize = 0;
        while pos < sorted.len() && !path_less(&it.virtual_path, &sorted[pos].virtual_path)
            invariant
                pos <= sorted.len(),
                before == item_views(sorted@),
                forall|k: int| 0 <= k < pos ==> !path_lt(it@.virtual_path, #[trigger] before[k].virtual_path),
            decreases sorted.len() - pos,
        {
            pos = pos + 1;
        }
        let ghost v = it@;
        sorted.insert(pos, it);
        proof {
            let after = item_views(sorted@);
            assert(after =~= before.insert(pos as int, v));
            vstd::seq_lib::to_multiset_insert(before, pos as int, v);
            assert(all.subrange(0, done + 1) =~= all.subrange(0, done).push(v));
            vstd::seq_lib::to_multiset_build(all.subrange(0, done), v);
            assert forall|i: int, j: int| 0 <= i < j < after.len() implies
                !path_lt(#[trigger] after[j].virtual_path, #[trigger] after[i].virtual_path) by {
                if i < pos && j < pos {
                    assert(after[i] == before[i] && after[j] == before[j]);
                } else if i < pos && j == pos {
                    assert(after[i] == before[i]);
                } else if i < pos {
                    assert(after[i] == before[i] && after[j] == before[j - 1]);
                } else if i == pos {
                    assert(after[j] == before[j - 1]);
                    assert(path_lt(v.virtual_path, before[pos as int].virtual_path));
                    if path_lt(after[j].virtual_path, v.virtual_path) {
                        lemma_path_lt_transitive(after[j].virtual_path, v.virtual_path, before[pos as int].virtual_path);
                        if j - 1 == pos {
                            crate::order::lemma_path_lt_irreflexive(before[pos as int].virtual_path);
                        } else {
                            assert(!path_lt(before[j - 1].virtual_path, before[pos as int].virtual_path));
                        }
                    }
                } else {
                    assert(after[i] == before[i - 1] && after[j] == before[j - 1]);
                }
            }
            done = done + 1;
        }
    }
    assert(all.subrange(0, done) =~= all);
    sorted
}

/// Scans the walk of the source tree below `source_root`: each `.m4a`
/// regular file is probed with `runner`, in walk order, until the first
/// failure; files whose probe fails or shows no Atmos E-AC-3 audio are
/// skipped; the others are indexed under their virtual paths and sorted by
/// them.  The answer used for each candidate, up to where the scan stops,
/// is the runner's answer about that candidate's own path; for those
/// answers the result is the one `index_probed` states.
pub fn scan_source<R: ProbeRunner>(
    source_root: &FsPath,
    entries: &Vec<Result<SourceEntry, String>>,
    runner: &R,
) -> (r: Result<Vec<MediaItem>, ScanError>)
    requires
        entries_wf(entries@),
    ensures
        exists|answers: Seq<Result<String, String>>|
            {
                &&& answers.len() == entries.len()
                &&& #[trigger] scan_result_is(source_root@, entries@, answers, r)
                &&& answers_from(runner, entries@, answers, scan_stop(source_root@, entries@, answers))
            },
        r matches Ok(v) ==> distinct_virtual_paths(item_views(v@)),
        r matches Ok(v) ==> forall|k: int| 0 <= k < v@.len() ==> keeps_layout(#[trigger] item_views(v@)[k]),
{
    let mut items: Vec<MediaItem> = Vec::new();
    let mut vpaths: Vec<FsPath> = Vec::new();
    let ghost mut answers: Seq<Result<String, String>> = Seq::empty();
    let n = entries.len();
    assert(item_views(items@) =~= Seq::<MediaItemView>::empty());
    assert(path_views(vpaths@) =~= virtual_paths(item_views(items@)));
    for i in 0..n
        invariant
            n == entries@.len(),
            answers.len() == i,
            entries_wf(entries@),
            scan_prefix(source_root@, entries@, answers, i as nat) == Ok::<Seq<MediaItemView>, (ScanFailKind, int)>(item_views(items@)),
            path_views(vpaths@) == virtual_paths(item_views(items@)),
            forall|k: int| 0 <= k < i ==> #[trigger] entry_answered(runner, entries@[k], answers[k]),
    {
        assert(entries@[i as int] matches Ok(e) ==> path_wf(e.path@));
        let answer = match &entries[i] {
            Ok(e) => if e.is_file && is_m4a_path(&e.path) {
                runner.probe_json(&e.path)
            } else {
                Err(String::new())
            },
            Err(_) => Err(String::new()),
        };
        let ghost prev = answers;
        assert(entry_answered(runner, entries@[i as int], answer));
        proof {
            answers = answers.push(answer);
            assert(prev.subrange(0, i as int) =~= answers.subrange(0, i as int));
            lemma_scan_prefix_extends(source_root@, entries@, prev, answers, i as nat);
            assert forall|k: int| 0 <= k < i + 1 implies #[trigger] entry_answered(runner, entries@[k], answers[k]) by {
                if k < i {
                    assert(answers[k] == prev[k]);
                }
            }
        }
        match index_entry(source_root, &entries[i], &answer, &mut items, &mut vpaths) {
            Ok(()) => {},
            Err(e) => {
                let ghost full = answers + Seq::new((n - i - 1) as nat, |k: int| answer);
                proof {
                    assert(answers.subrange(0, i + 1) =~= full.subrange(0, i + 1));
                    lemma_scan_prefix_extends(source_root@, entries@, answers, full, (i + 1) as nat);
                    lemma_scan_failure_persists(source_root@, entries@, full, (i + 1) as nat, n as nat);
                    assert(scan_result_is(source_root@, entries@, full, Err(e)));
                    assert(scan_stop(source_root@, entries@, full) == i);
                    assert forall|k: int| 0 <= k < entries@.len() && k <= i implies
                        #[trigger] entry_answered(runner, entries@[k], full[k]) by {
                        assert(full[k] == answers[k]);
                    }
                    assert(answers_from(runner, entries@, full, scan_stop(source_root@, entries@, full)));
                }
                return Err(e);
            },
        }
    }
    proof {
        lemma_scan_paths_distinct(source_root@, entries@, answers, n as nat);
    }
    let sorted = sort_by_virtual_path(items);
    proof {
        lemma_permutation_keeps_distinct(
            item_views(sorted@),
            scan_prefix(source_root@, entries@, answers, n as nat)->Ok_0,
        );
        lemma_scan_exposes_accepted_mkv(source_root@, entries@, answers, n as nat);
        lemma_permutation_keeps_layout(
            item_views(sorted@),
            scan_prefix(source_root@, entries@, answers, n as nat)->Ok_0,
        );
        lemma_sorted_count(source_root@, entries@, answers, sorted@);
        assert(scan_result_is(source_root@, entries@, answers, Ok(sorted)));
        assert(answers_from(runner, entries@, answers, scan_stop(source_root@, entries@, answers)));
    }
    Ok(sorted)
}

/// A scan prefix reads only the answers for its own entries.
pub proof fn lemma_scan_prefix_extends(
    root: Seq<Component>,
    entries: Seq<Result<SourceEntry, String>>,
    a: Seq<Result<String, String>>,
    b: Seq<Result<String, String>>,
    n: nat,
)
    requires
        n <= a.len(),
        n <= b.len(),
        a.subrange(0, n as int) == b.subrange(0, n as int),
    ensures
        scan_prefix(root, entries, a, n) == scan_prefix(root, entries, b, n),
    decreases n,
{
    if n > 0 {
        assert(a.subrange(0, n - 1) =~= a.subrange(0, n as int).subrange(0, n - 1));
        assert(b.subrange(0, n - 1) =~= b.subrange(0, n as int).subrange(0, n - 1));
        lemma_scan_prefix_extends(root, entries, a, b, (n - 1) as nat);
        assert(a[n - 1] == a.subrange(0, n as int)[n - 1]);
        assert(b[n - 1] == b.subrange(0, n as int)[n - 1]);
    }
}

/// The item stands for entry `entry` of the walk: an `.m4a` file whose
/// probe showed Atmos E-AC-3 audio, with its path below the root, size and
/// time.
pub open spec fn entry_kept(
    root: Seq<Component>,
    entry: Result<SourceEntry, String>,
    answer: Result<String, String>,
    it: MediaItemView,
) -> bool {
    match entry {
        Ok(e) => {
            &&& is_candidate(e)
            &&& probe_accepts(answer)
            &&& it.source_path == e.path@
            &&& it.source_text == e.path.text@
            &&& strip_prefix(e.path@, root) == Some(it.relative_m4a)
            &&& e.size == Ok::<u64, String>(it.size)
            &&& e.mtime == Ok::<FileTime, String>(it.mtime)
        },
        Err(_) => false,
    }
}

/// The virtual file of an item lies in the folder of its source below the
/// root and has the extension `mkv`.
pub open spec fn keeps_layout(it: MediaItemView) -> bool {
    it.relative_m4a.len() > 0 ==> {
        &&& it.virtual_path.len() == it.relative_m4a.len()
        &&& it.virtual_path.drop_last() == it.relative_m4a.drop_last()
        &&& extension(it.virtual_path) == Some(mkv_text())
    }
}

/// A name that ends in `.mkv` after at least one character has the
/// extension `mkv`.
proof fn lemma_mkv_extension(a: Seq<char>)
    requires
        a.len() > 0,
    ensures
        name_extension(a.push('.') + mkv_text()) == Some(mkv_text()),
{
    let n = a.push('.') + mkv_text();
    assert(n[a.len() as int] == '.');
    assert forall|k: int| a.len() < k < n.len() implies n[k] != '.' by {
        assert(n[k] == mkv_text()[k - a.len() - 1]);
    }
    lemma_last_dot_at(n, a.len() as int);
    assert(n.subrange(a.len() as int + 1, n.len() as int) =~= mkv_text());
}

/// The path that an accepted file is exposed under, before numbering: same
/// folder, same length, extension `mkv`.
proof fn lemma_with_mkv_layout(rel: Seq<Component>)
    requires
        rel.len() > 0,
        rel.last() matches Component::Normal(n) && n.len() > 0,
    ensures
        with_extension(rel, mkv_text()).len() == rel.len(),
        with_extension(rel, mkv_text()).drop_last() == rel.drop_last(),
        extension(with_extension(rel, mkv_text())) == Some(mkv_text()),
{
    let n = rel.last()->Normal_0;
    let p = with_extension(rel, mkv_text());
    lemma_last_dot_range(n);
    let stem = name_stem(n);
    assert(stem.len() > 0);
    assert(p.drop_last() =~= rel.drop_last());
    assert(p.last() == Component::Normal(stem.push('.') + mkv_text()));
    lemma_mkv_extension(stem);
}

/// A numbered sibling of a path with extension `mkv` keeps its folder and
/// its extension.
proof fn lemma_numbered_layout(p: Seq<Component>, k: nat)
    requires
        p.len() > 0,
        p.last() is Normal,
        extension(p) == Some(mkv_text()),
    ensures
        crate::media::numbered_candidate(p, k).len() == p.len(),
        crate::media::numbered_candidate(p, k).drop_last() == p.drop_last(),
        extension(crate::media::numbered_candidate(p, k)) == Some(mkv_text()),
{
    let c = crate::media::numbered_candidate(p, k);
    let stem = crate::media::stem_or_track(p);
    let name = crate::media::numbered_name(stem, k, mkv_text());
    assert(crate::media::extension_or_mkv(p) == mkv_text());
    assert(c.drop_last() =~= p.drop_last());
    let a = stem + seq![' ', '('] + decimal(k) + seq![')'];
    assert(name =~= a.push('.') + mkv_text());
    lemma_mkv_extension(a);
    assert(c.last() == Component::Normal(name));
}

/// The item that one accepted entry adds is kept from that entry and keeps
/// its layout.
proof fn lemma_added_item(
    root: Seq<Component>,
    items: Seq<MediaItemView>,
    entry: Result<SourceEntry, String>,
    answer: Result<String, String>,
)
    requires
        entry matches Ok(e) ==> path_wf(e.path@),
        scan_entry(root, items, entry, answer) matches Ok(next) && next != items,
    ensures
        ({
            let next = scan_entry(root, items, entry, answer)->Ok_0;
            &&& next.len() == items.len() + 1
            &&& forall|k: int| 0 <= k < items.len() ==> next[k] == items[k]
            &&& keeps_layout(next.last())
            &&& entry_kept(root, entry, answer, next.last())
        }),
{
    let e = entry->Ok_0;
    let rel = strip_prefix(e.path@, root)->Some_0;
    let p = with_extension(rel, mkv_text());
    let ex = virtual_paths(items);
    lemma_unique_choice_exists(p, ex);
    let r = spec_unique_path(p, ex);
    let next = scan_entry(root, items, entry, answer)->Ok_0;
    assert(next.last().virtual_path == r);
    if rel.len() > 0 {
        let path = e.path@;
        assert(crate::media::spec_is_m4a_path(path));
        assert(path.len() > 0 && path.last() is Normal);
        assert(rel.last() == path.last()) by {
            assert(rel[rel.len() - 1] == path[path.len() - 1]);
            assert(path[path.len() - 1] == path.last());
        }
        assert(path.last()->Normal_0.len() > 0) by {
            assert(path[path.len() - 1] matches Component::Normal(m) ==> valid_name(m));
        }
        lemma_with_mkv_layout(rel);
        if ex.contains(p) {
            let kk = choose|kk: nat|
                #![trigger crate::media::numbered_candidate(p, kk)]
                {
                    &&& kk >= 2
                    &&& r == crate::media::numbered_candidate(p, kk)
                    &&& !ex.contains(r)
                    &&& forall|j: nat| 2 <= j < kk ==> ex.contains(#[trigger] crate::media::numbered_candidate(p, j))
                };
            assert(p.last() is Normal) by {
                assert(p[p.len() - 1] == p.last());
            }
            lemma_numbered_layout(p, kk);
        }
    }
}

/// The walk entry, with the probe's answer for it, is a file that the scan
/// exposes: a regular file named `*.m4a` (in any case) whose report the
/// probe accepts, lying below the root, with a readable size and time.
pub open spec fn exposed(root: Seq<Component>, entry: Result<SourceEntry, String>, answer: Result<String, String>) -> bool {
    &&& entry matches Ok(e)
    &&& e.is_file
    &&& spec_is_m4a_path(e.path@)
    &&& probe_accepts(answer)
    &&& strip_prefix(e.path@, root) is Some
    &&& e.size is Ok
    &&& e.mtime is Ok
}

/// How many of the first `n` entries are exposed.
pub open spec fn exposed_count(
    root: Seq<Component>,
    entries: Seq<Result<SourceEntry, String>>,
    answers: Seq<Result<String, String>>,
    n: nat,
) -> nat
    decreases n,
{
    if n == 0 {
        0
    } else {
        exposed_count(root, entries, answers, (n - 1) as nat) + if exposed(root, entries[n - 1], answers[n - 1]) {
            1nat
        } else {
            0nat
        }
    }
}

/// Items with the views of a successful scan, in any order, are as many
/// as the exposed entries.
proof fn lemma_sorted_count(
    root: Seq<Component>,
    entries: Seq<Result<SourceEntry, String>>,
    answers: Seq<Result<String, String>>,
    v: Seq<MediaItem>,
)
    requires
        answers.len() == entries.len(),
        scan_prefix(root, entries, answers, entries.len()) is Ok,
        item_views(v).to_multiset() == scan_prefix(root, entries, answers, entries.len())->Ok_0.to_multiset(),
    ensures
        v.len() == exposed_count(root, entries, answers, entries.len()),
{
    broadcast use vstd::seq_lib::group_to_multiset_ensures;
    lemma_scan_complete(root, entries, answers, entries.len());
    let items = scan_prefix(root, entries, answers, entries.len())->Ok_0;
    assert(item_views(v).len() == v.len());
    assert(item_views(v).to_multiset().len() == item_views(v).len());
    assert(items.to_multiset().len() == items.len());
}

/// The item that an exposed entry gives.
pub open spec fn item_of(root: Seq<Component>, entry: Result<SourceEntry, String>, it: MediaItemView) -> bool {
    &&& it.source_path == entry->Ok_0.path@
    &&& it.relative_m4a == strip_prefix(entry->Ok_0.path@, root)->Some_0
    &&& it.size == entry->Ok_0.size->Ok_0
    &&& it.mtime == entry->Ok_0.mtime->Ok_0
}

/// One more entry: the items grow by exactly one, the exposed entry's
/// item, when the entry is exposed, and stay as they are otherwise.
proof fn lemma_scan_entry_exposed(
    root: Seq<Component>,
    items: Seq<MediaItemView>,
    entry: Result<SourceEntry, String>,
    answer: Result<String, String>,
)
    requires
        scan_entry(root, items, entry, answer) is Ok,
    ensures
        exposed(root, entry, answer) ==> {
            let next = scan_entry(root, items, entry, answer)->Ok_0;
            &&& next.len() == items.len() + 1
            &&& next.subrange(0, items.len() as int) == items
            &&& item_of(root, entry, next.last())
        },
        !exposed(root, entry, answer) ==> scan_entry(root, items, entry, answer)->Ok_0 == items,
{
    if exposed(root, entry, answer) {
        let next = scan_entry(root, items, entry, answer)->Ok_0;
        assert(next.subrange(0, items.len() as int) =~= items);
    }
}

/// The scan is complete, at any depth below the root: when it succeeds,
/// every exposed entry gives an item with its source path, its path
/// relative to the root, its size and its time, and there are exactly as
/// many items as exposed entries.
pub proof fn lemma_scan_complete(
    root: Seq<Component>,
    entries: Seq<Result<SourceEntry, String>>,
    answers: Seq<Result<String, String>>,
    n: nat,
)
    requires
        n <= entries.len(),
        n <= answers.len(),
    ensures
        scan_prefix(root, entries, answers, n) matches Ok(items) ==> {
            &&& items.len() == exposed_count(root, entries, answers, n)
            &&& forall|i: int|
                0 <= i < n && #[trigger] exposed(root, entries[i], answers[i]) ==> exists|k: int|
                    0 <= k < items.len() && item_of(root, entries[i], #[trigger] items[k])
        },
    decreases n,
{
    if n > 0 {
        let m = (n - 1) as nat;
        lemma_scan_complete(root, entries, answers, m);
        if let Ok(items) = scan_prefix(root, entries, answers, m) {
            let entry = entries[n - 1];
            let answer = answers[n - 1];
            if let Ok(next) = scan_entry(root, items, entry, answer) {
                assert(scan_prefix(root, entries, answers, n) == Ok::<Seq<MediaItemView>, (ScanFailKind, int)>(next));
                lemma_scan_entry_exposed(root, items, entry, answer);
                assert(exposed_count(root, entries, answers, n) == exposed_count(root, entries, answers, m) + if exposed(
                    root,
                    entry,
                    answer,
                ) {
                    1nat
                } else {
                    0nat
                });
                assert(next.len() == exposed_count(root, entries, answers, n));
                assert forall|i: int| 0 <= i < n && #[trigger] exposed(root, entries[i], answers[i]) implies exists|k: int|
                    0 <= k < next.len() && item_of(root, entries[i], #[trigger] next[k]) by {
                    if i == n - 1 {
                        assert(next[next.len() - 1] == next.last());
                    } else {
                        let k = choose|k: int| 0 <= k < items.len() && item_of(root, entries[i], #[trigger] items[k]);
                        if exposed(root, entry, answer) {
                            assert(next[k] == next.subrange(0, items.len() as int)[k]);
                        }
                        assert(next[k] == items[k]);
                    }
                }
            } else {
                assert(scan_prefix(root, entries, answers, n) is Err);
            }
        } else {
            assert(scan_prefix(root, entries, answers, n) is Err);
        }
    } else {
        assert(scan_prefix(root, entries, answers, n) == Ok::<Seq<MediaItemView>, (ScanFailKind, int)>(Seq::empty()));
    }
}

/// Only `.m4a` files whose probe shows Atmos E-AC-3 audio are exposed, each
/// as a `.mkv` in the folder of its source below the root.
pub proof fn lemma_scan_exposes_accepted_mkv(
    root: Seq<Component>,
    entries: Seq<Result<SourceEntry, String>>,
    answers: Seq<Result<String, String>>,
    n: nat,
)
    requires
        n <= entries.len(),
        entries_wf(entries),
        scan_prefix(root, entries, answers, n) is Ok,
    ensures
        forall|k: int| 0 <= k < scan_prefix(root, entries, answers, n)->Ok_0.len() ==> {
            let it = #[trigger] scan_prefix(root, entries, answers, n)->Ok_0[k];
            &&& keeps_layout(it)
            &&& exists|i: int| 0 <= i < n && #[trigger] entry_kept(root, entries[i], answers[i], it)
        },
    decreases n,
{
    if n > 0 {
        lemma_scan_exposes_accepted_mkv(root, entries, answers, (n - 1) as nat);
        let items = scan_prefix(root, entries, answers, (n - 1) as nat)->Ok_0;
        let next = scan_prefix(root, entries, answers, n)->Ok_0;
        assert(next == scan_entry(root, items, entries[n - 1], answers[n - 1])->Ok_0);
        if next != items {
            assert(entries[n - 1] matches Ok(e) ==> path_wf(e.path@));
            lemma_added_item(root, items, entries[n - 1], answers[n - 1]);
        }
        assert forall|k: int| 0 <= k < next.len() implies {
            let it = #[trigger] next[k];
            &&& keeps_layout(it)
            &&& exists|i: int| 0 <= i < n && #[trigger] entry_kept(root, entries[i], answers[i], it)
        } by {
            if k < items.len() {
                assert(next[k] == items[k]);
                let it = items[k];
                let i = choose|i: int| 0 <= i < n - 1 && #[trigger] entry_kept(root, entries[i], answers[i], it);
                assert(entry_kept(root, entries[i], answers[i], next[k]));
            } else {
                assert(next[k] == next.last());
                assert(entry_kept(root, entries[n - 1], answers[n - 1], next[k]));
            }
        }
    }
}

/// Reordering items keeps each item's layout.
proof fn lemma_permutation_keeps_layout(s: Seq<MediaItemView>, v: Seq<MediaItemView>)
    requires
        s.to_multiset() == v.to_multiset(),
        forall|k: int| 0 <= k < v.len() ==> keeps_layout(#[trigger] v[k]),
    ensures
        forall|k: int| 0 <= k < s.len() ==> keeps_layout(#[trigger] s[k]),
{
    broadcast use vstd::seq_lib::group_to_multiset_ensures;
    assert forall|k: int| 0 <= k < s.len() implies keeps_layout(#[trigger] s[k]) by {
        assert(s.to_multiset().count(s[k]) > 0);
        assert(v.contains(s[k]));
        let j = choose|j: int| 0 <= j < v.len() && v[j] == s[k];
        assert(keeps_layout(v[j]));
    }
}

} // verus!
