use vstd::prelude::*;
use crate::config::{FileDateType, RunConfig};
use crate::paths::under_any_ignored;

verus! {

/// A file's three timestamps, in nanoseconds relative to the epoch
/// (negative for moments before it), read from its metadata.
#[derive(Debug, PartialEq, Eq, Structural, Clone, Copy)]
pub struct Timestamps {
    pub created: i128,
    pub modified: i128,
    pub accessed: i128,
}

/// What kind of filesystem object an entry is.
#[derive(Debug, PartialEq, Eq, Structural, Clone, Copy)]
pub enum EntryKind {
    File,
    Directory,
    Symlink,
    Other,
}

/// One entry yielded by the traversal of a target folder.
pub struct Entry {
    /// The entry's path, as components.
    pub path: Vec<Vec<u8>>,
    /// Its depth below the target folder it was found under; the target
    /// folder itself has depth zero.
    pub depth: usize,
    /// What the entry is.
    pub kind: EntryKind,
    /// Its timestamps, or `None` when its metadata could not be read;
    /// such a file is skipped and reported, never deleted.
    pub times: Option<Timestamps>,
}

/// The timestamp a date type selects.
pub open spec fn time_by(t: Timestamps, dt: FileDateType) -> i128 {
    match dt {
        FileDateType::Created => t.created,
        FileDateType::Modified => t.modified,
        FileDateType::Accessed => t.accessed,
    }
}

/// A file is expired when every selected timestamp is at or before the
/// cutoff; equivalently, when the most recent selected timestamp is.
pub open spec fn spec_expired(t: Timestamps, date_types: Seq<FileDateType>, cutoff: i128) -> bool {
    forall|i: int| 0 <= i < date_types.len() ==> time_by(t, #[trigger] date_types[i]) <= cutoff
}

/// Whether the depth lies within the configured bounds.
pub open spec fn depth_in_bounds(
    depth: usize,
    min_depth: Option<usize>,
    max_depth: Option<usize>,
) -> bool {
    &&& (min_depth matches Some(mn) ==> depth >= mn)
    &&& (max_depth matches Some(mx) ==> depth <= mx)
}

/// Whether an entry is selected for deletion: a regular file, within the
/// depth bounds, not under an ignored path, with readable metadata, and
/// old by every selected measure.
pub open spec fn spec_is_candidate(e: Entry, cfg: RunConfig) -> bool {
    &&& e.kind is File
    &&& depth_in_bounds(e.depth, cfg.min_depth, cfg.max_depth)
    &&& !under_any_ignored(cfg.ignored.deep_view(), e.path.deep_view())
    &&& e.times matches Some(t) && spec_expired(t, cfg.date_types@, cfg.cutoff)
}

/// The positions, in traversal order, of the entries selected for
/// deletion.
pub open spec fn spec_selected(s: Seq<Entry>, cfg: RunConfig) -> Seq<usize>
    decreases s.len(),
{
    if s.len() == 0 {
        Seq::empty()
    } else {
        let rest = spec_selected(s.drop_last(), cfg);
        if spec_is_candidate(s.last(), cfg) {
            rest.push((s.len() - 1) as usize)
        } else {
            rest
        }
    }
}

/// The selected positions are exactly the positions of candidate
/// entries, in traversal order: each lies in range, each selected entry
/// is a candidate, the positions are strictly increasing, and every
/// candidate position is selected.
pub proof fn lemma_selected_characterized(s: Seq<Entry>, cfg: RunConfig)
    requires
        s.len() <= usize::MAX,
    ensures
        forall|a: int| 0 <= a < spec_selected(s, cfg).len() ==> (#[trigger] spec_selected(
            s,
            cfg,
        )[a]) < s.len() && spec_is_candidate(s[spec_selected(s, cfg)[a] as int], cfg),
        forall|a: int, b: int| 0 <= a < b < spec_selected(s, cfg).len() ==> spec_selected(
            s,
            cfg,
        )[a] < spec_selected(s, cfg)[b],
        forall|i: int| 0 <= i < s.len() ==> (spec_selected(s, cfg).contains(i as usize)
            <==> spec_is_candidate(#[trigger] s[i], cfg)),
    decreases s.len(),
{
    broadcast use vstd::seq_lib::lemma_seq_contains_after_push;

    if s.len() > 0 {
        let pre = s.drop_last();
        let sel_pre = spec_selected(pre, cfg);
        let sel = spec_selected(s, cfg);
        lemma_selected_characterized(pre, cfg);
        assert forall|i: int| 0 <= i < s.len() implies (sel.contains(i as usize)
            <==> spec_is_candidate(s[i], cfg)) by {
            if i < s.len() - 1 {
                assert(pre[i] == s[i]);
                assert(sel_pre.contains(i as usize) <==> spec_is_candidate(pre[i], cfg));
            } else {
                if sel_pre.contains(i as usize) {
                    let a = choose|a: int| 0 <= a < sel_pre.len() && sel_pre[a] == i as usize;
                    assert(sel_pre[a] < pre.len());
                }
            }
        }
    }
}

/// The candidate set is a function of the selection inputs alone: two
/// configurations that agree on the cutoff, the date types, the ignored
/// paths and the depth bounds select the same positions, whatever their
/// remaining flags say. In particular a dry run reports exactly what a
/// real run would delete, and running twice over the same entries gives
/// the same candidate set.
pub proof fn lemma_selection_deterministic(s: Seq<Entry>, cfg1: RunConfig, cfg2: RunConfig)
    requires
        cfg1.cutoff == cfg2.cutoff,
        cfg1.date_types@ == cfg2.date_types@,
        cfg1.ignored.deep_view() == cfg2.ignored.deep_view(),
        cfg1.min_depth == cfg2.min_depth,
        cfg1.max_depth == cfg2.max_depth,
    ensures
        spec_selected(s, cfg1) == spec_selected(s, cfg2),
    decreases s.len(),
{
    if s.len() > 0 {
        lemma_selection_deterministic(s.drop_last(), cfg1, cfg2);
        assert(spec_is_candidate(s.last(), cfg1) == spec_is_candidate(s.last(), cfg2));
    }
}

/// No selected entry lies at or under an ignored path, whatever its
/// depth or age.
pub proof fn lemma_ignored_paths_excluded(s: Seq<Entry>, cfg: RunConfig, a: int)
    requires
        s.len() <= usize::MAX,
        0 <= a < spec_selected(s, cfg).len(),
    ensures
        spec_selected(s, cfg)[a] < s.len(),
        !under_any_ignored(
            cfg.ignored.deep_view(),
            s[spec_selected(s, cfg)[a] as int].path.deep_view(),
        ),
{
    lemma_selected_characterized(s, cfg);
}

/// Every selected entry lies within the depth bounds; with equal bounds,
/// at exactly that depth.
pub proof fn lemma_depth_bounded(s: Seq<Entry>, cfg: RunConfig, a: int)
    requires
        s.len() <= usize::MAX,
        0 <= a < spec_selected(s, cfg).len(),
    ensures
        spec_selected(s, cfg)[a] < s.len(),
        depth_in_bounds(s[spec_selected(s, cfg)[a] as int].depth, cfg.min_depth, cfg.max_depth),
        (cfg.min_depth is Some && cfg.max_depth == cfg.min_depth) ==> s[spec_selected(
            s,
            cfg,
        )[a] as int].depth == cfg.min_depth->0,
{
    lemma_selected_characterized(s, cfg);
}

/// The monotonic threshold law: an in-scope file whose every selected
/// timestamp is at or before the cutoff is selected, and a file with
/// even one selected timestamp past the cutoff never is.
pub proof fn lemma_monotonic_threshold(s: Seq<Entry>, cfg: RunConfig, i: int)
    requires
        s.len() <= usize::MAX,
        0 <= i < s.len(),
    ensures
        ({
            &&& s[i].kind is File
            &&& depth_in_bounds(s[i].depth, cfg.min_depth, cfg.max_depth)
            &&& !under_any_ignored(cfg.ignored.deep_view(), s[i].path.deep_view())
            &&& s[i].times matches Some(t) && spec_expired(t, cfg.date_types@, cfg.cutoff)
        }) ==> spec_selected(s, cfg).contains(i as usize),
        (s[i].times matches Some(t) && (exists|j: int|
            0 <= j < cfg.date_types@.len() && time_by(t, #[trigger] cfg.date_types@[j])
                > cfg.cutoff)) ==> !spec_selected(s, cfg).contains(i as usize),
        s[i].times is None ==> !spec_selected(s, cfg).contains(i as usize),
{
    lemma_selected_characterized(s, cfg);
}

/// Decides expiry by the rule of `spec_expired`: computes the most
/// recent of the selected timestamps and compares it with the cutoff.
pub fn is_expired(t: &Timestamps, date_types: &Vec<FileDateType>, cutoff: i128) -> (r: bool)
    requires
        date_types@.len() > 0,
    ensures
        r == spec_expired(*t, date_types@, cutoff),
{
    let mut latest: i128 = time_by_exec(t, date_types[0]);
    let n = date_types.len();
    for i in 1..n
        invariant
            n == date_types@.len(),
            forall|j: int| 0 <= j < i ==> time_by(*t, #[trigger] date_types@[j]) <= latest,
            exists|j: int| 0 <= j < i && time_by(*t, #[trigger] date_types@[j]) == latest,
    {
        let cur = time_by_exec(t, date_types[i]);
        if cur > latest {
            latest = cur;
        }
    }
    latest <= cutoff
}

/// The timestamp a date type selects.
pub fn time_by_exec(t: &Timestamps, dt: FileDateType) -> (r: i128)
    ensures
        r == time_by(*t, dt),
{
    match dt {
        FileDateType::Created => t.created,
        FileDateType::Modified => t.modified,
        FileDateType::Accessed => t.accessed,
    }
}

/// Filters the traversal output down to the files to delete, returning
/// their positions in traversal order.
pub fn get_files_to_delete(entries: &Vec<Entry>, cfg: &RunConfig) -> (r: Vec<usize>)
    requires
        cfg.wf(),
    ensures
        r@ == spec_selected(entries@, *cfg),
{
    let mut r: Vec<usize> = Vec::new();
    let n = entries.len();
    for i in 0..n
        invariant
            n == entries@.len(),
            cfg.wf(),
            r@ == spec_selected(entries@.take(i as int), *cfg),
    {
        let e = &entries[i];
        let mut selected = false;
        if matches!(e.kind, EntryKind::File) {
            let depth_ok = match (cfg.min_depth, cfg.max_depth) {
                (Some(mn), Some(mx)) => e.depth >= mn && e.depth <= mx,
                (Some(mn), None) => e.depth >= mn,
                (None, Some(mx)) => e.depth <= mx,
                (None, None) => true,
            };
            if depth_ok && !crate::paths::is_under_any_ignored(&cfg.ignored, &e.path) {
                if let Some(t) = &e.times {
                    if is_expired(t, &cfg.date_types, cfg.cutoff) {
                        selected = true;
                    }
                }
            }
        }
        if selected {
            r.push(i);
        }
        proof {
            assert(entries@.take(i + 1).drop_last() =~= entries@.take(i as int));
            assert(entries@.take(i + 1).last() == entries@[i as int]);
            assert(selected == spec_is_candidate(entries@[i as int], *cfg));
        }
    }
    proof {
        assert(entries@.take(n as int) =~= entries@);
    }
    r
}

} // verus!
