use vstd::prelude::*;
use crate::paths::{
    clone_bytes, clone_path, in_path_list, is_in_path_list, is_path_prefix, is_strict_path_prefix,
    is_under_any_ignored, lemma_path_deep_view, lemma_path_list_deep_view, under_any_ignored,
};

verus! {

// The empty-folder prune pass works on a snapshot of each target
// folder's directory tree. It decides, bottom-up, which directories are
// left empty once their empty children are gone, and returns the full
// deletion plan in post-order: every directory after all of its deleted
// descendants. Two path lists steer the decision. `ignored` holds the
// ignored paths: an entry at or under one is opaque content, so neither
// it nor any of its ancestors is ever pruned. `doomed` holds the files
// the file-deletion pass removes: a doomed file no longer counts as
// content, which lets a dry run plan from an unmutated snapshot exactly
// what a real run would remove after its file pass (a real run
// snapshots after deleting files and passes no doomed paths). Symbolic
// links are treated as opaque content throughout: a directory holding
// one is never considered empty, whether or not symbolic links are
// followed during the walk.

/// A snapshot of one directory entry: its name and what it is.
pub struct FsDirEntry {
    pub name: Vec<u8>,
    pub node: FsNode,
}

/// A snapshot of a filesystem subtree.
pub enum FsNode {
    /// A regular file (or any non-directory, non-symlink entry).
    File,
    /// A symbolic link: opaque content, never traversed, never empty.
    Symlink,
    /// A directory. `fully_read` is false when its contents could not be
    /// fully enumerated; such a directory is conservatively kept, since
    /// its true emptiness is unverified.
    Dir { entries: Vec<FsDirEntry>, fully_read: bool },
}

/// True when the prune pass finds nothing left at path `p`: a doomed
/// file, or a fully readable directory all of whose entries vanish.
/// Anything at or under an ignored path is content and never vanishes,
/// so its ancestors stay too.
pub open spec fn vanishes(
    ig: Seq<Seq<Seq<u8>>>,
    doomed: Seq<Seq<Seq<u8>>>,
    p: Seq<Seq<u8>>,
    n: FsNode,
) -> bool
    decreases n,
{
    if under_any_ignored(ig, p) {
        false
    } else {
        match n {
            FsNode::File => in_path_list(doomed, p),
            FsNode::Symlink => false,
            FsNode::Dir { entries, fully_read } => fully_read && all_vanish(
                ig,
                doomed,
                p,
                entries@,
            ),
        }
    }
}

/// True when every entry of the directory at `p` vanishes.
pub open spec fn all_vanish(
    ig: Seq<Seq<Seq<u8>>>,
    doomed: Seq<Seq<Seq<u8>>>,
    p: Seq<Seq<u8>>,
    s: Seq<FsDirEntry>,
) -> bool
    decreases s,
{
    if s.len() == 0 {
        true
    } else {
        vanishes(ig, doomed, p.push(s[0].name@), s[0].node) && all_vanish(
            ig,
            doomed,
            p,
            s.drop_first(),
        )
    }
}

/// `all_vanish` holds exactly when each entry vanishes.
pub proof fn lemma_all_vanish_iff(
    ig: Seq<Seq<Seq<u8>>>,
    doomed: Seq<Seq<Seq<u8>>>,
    p: Seq<Seq<u8>>,
    s: Seq<FsDirEntry>,
)
    ensures
        all_vanish(ig, doomed, p, s) <==> (forall|i: int|
            0 <= i < s.len() ==> vanishes(ig, doomed, p.push(#[trigger] s[i].name@), s[i].node)),
    decreases s,
{
    if s.len() > 0 {
        lemma_all_vanish_iff(ig, doomed, p, s.drop_first());
        assert forall|i: int| 1 <= i < s.len() implies s.drop_first()[i - 1] == s[i] by {}
    }
}

/// Whether the subtree holds a symbolic link anywhere.
pub open spec fn has_symlink(n: FsNode) -> bool
    decreases n,
{
    match n {
        FsNode::File => false,
        FsNode::Symlink => true,
        FsNode::Dir { entries, .. } => any_symlink(entries@),
    }
}

/// Whether any entry's subtree holds a symbolic link.
pub open spec fn any_symlink(s: Seq<FsDirEntry>) -> bool
    decreases s,
{
    s.len() > 0 && (has_symlink(s[0].node) || any_symlink(s.drop_first()))
}

/// `any_symlink` holds exactly when some entry's subtree holds one.
pub proof fn lemma_any_symlink_iff(s: Seq<FsDirEntry>)
    ensures
        any_symlink(s) <==> (exists|i: int|
            0 <= i < s.len() && has_symlink(#[trigger] s[i].node)),
    decreases s,
{
    if s.len() > 0 {
        lemma_any_symlink_iff(s.drop_first());
        assert forall|i: int| 1 <= i < s.len() implies s.drop_first()[i - 1] == s[i] by {}
        if any_symlink(s.drop_first()) {
            let i = choose|i: int|
                0 <= i < s.drop_first().len() && has_symlink(s.drop_first()[i].node);
            assert(has_symlink(s[i + 1].node));
        }
        if exists|i: int| 0 <= i < s.len() && has_symlink(#[trigger] s[i].node) {
            let i = choose|i: int| 0 <= i < s.len() && has_symlink(#[trigger] s[i].node);
            if i > 0 {
                assert(has_symlink(s.drop_first()[i - 1].node));
            }
        }
    }
}

/// A directory with a symbolic link among its entries never vanishes,
/// whatever the symlink-follow policy: the link is opaque content.
pub proof fn lemma_symlink_keeps_dir(
    ig: Seq<Seq<Seq<u8>>>,
    doomed: Seq<Seq<Seq<u8>>>,
    p: Seq<Seq<u8>>,
    n: FsNode,
    i: int,
)
    requires
        n is Dir,
        0 <= i < n->entries@.len(),
        n->entries@[i].node is Symlink,
    ensures
        !vanishes(ig, doomed, p, n),
{
    lemma_all_vanish_iff(ig, doomed, p, n->entries@);
    assert(!vanishes(ig, doomed, p.push(n->entries@[i].name@), n->entries@[i].node));
}

/// Nothing pruning removes holds a symbolic link anywhere beneath it.
pub proof fn lemma_pruned_tree_has_no_symlink(
    ig: Seq<Seq<Seq<u8>>>,
    doomed: Seq<Seq<Seq<u8>>>,
    p: Seq<Seq<u8>>,
    n: FsNode,
)
    ensures
        vanishes(ig, doomed, p, n) ==> !has_symlink(n),
    decreases n,
{
    if vanishes(ig, doomed, p, n) {
        match n {
            FsNode::Dir { entries, fully_read } => {
                lemma_all_vanish_iff(ig, doomed, p, entries@);
                lemma_any_symlink_iff(entries@);
                assert forall|i: int|
                    0 <= i < entries@.len() implies !has_symlink(
                    #[trigger] entries@[i].node,
                ) by {
                    assert(decreases_to!(n => entries));
                    assert(decreases_to!(entries => entries@));
                    assert(decreases_to!(entries@ => entries@[i]));
                    assert(decreases_to!(entries@[i] => entries@[i].node));
                    lemma_pruned_tree_has_no_symlink(
                        ig,
                        doomed,
                        p.push(entries@[i].name@),
                        entries@[i].node,
                    );
                }
            },
            _ => {},
        }
    }
}

/// The deletion plan for the subtree rooted at path `p`: the paths of
/// the directories that pruning removes, deepest first, each directory
/// after all of its removed descendants.
pub open spec fn spec_plan(
    ig: Seq<Seq<Seq<u8>>>,
    doomed: Seq<Seq<Seq<u8>>>,
    p: Seq<Seq<u8>>,
    n: FsNode,
) -> Seq<Seq<Seq<u8>>>
    decreases n,
{
    match n {
        FsNode::Dir { entries, fully_read } => {
            let children = spec_plans(ig, doomed, p, entries@);
            if vanishes(ig, doomed, p, n) {
                children.push(p)
            } else {
                children
            }
        },
        _ => Seq::empty(),
    }
}

/// The concatenated plans of the subtrees under `p`, in entry order.
pub open spec fn spec_plans(
    ig: Seq<Seq<Seq<u8>>>,
    doomed: Seq<Seq<Seq<u8>>>,
    p: Seq<Seq<u8>>,
    s: Seq<FsDirEntry>,
) -> Seq<Seq<Seq<u8>>>
    decreases s,
{
    if s.len() == 0 {
        Seq::empty()
    } else {
        spec_plans(ig, doomed, p, s.drop_last()) + spec_plan(
            ig,
            doomed,
            p.push(s.last().name@),
            s.last().node,
        )
    }
}

/// One step of `spec_plans`, phrased over prefixes of the entry list.
proof fn lemma_spec_plans_take_step(
    ig: Seq<Seq<Seq<u8>>>,
    doomed: Seq<Seq<Seq<u8>>>,
    p: Seq<Seq<u8>>,
    s: Seq<FsDirEntry>,
    i: int,
)
    requires
        0 <= i < s.len(),
    ensures
        spec_plans(ig, doomed, p, s.take(i + 1)) == spec_plans(ig, doomed, p, s.take(i))
            + spec_plan(ig, doomed, p.push(s[i].name@), s[i].node),
{
    assert(s.take(i + 1).drop_last() =~= s.take(i));
    assert(s.take(i + 1).last() == s[i]);
}

/// Sibling entries carry distinct names, as they do on a real
/// filesystem.
pub open spec fn distinct_names(s: Seq<FsDirEntry>) -> bool {
    forall|i: int, j: int| 0 <= i < j < s.len() ==> s[i].name@ != s[j].name@
}

/// A well-formed snapshot: within every directory, sibling names are
/// distinct.
pub open spec fn wf_tree(n: FsNode) -> bool
    decreases n,
{
    match n {
        FsNode::Dir { entries, .. } => distinct_names(entries@) && all_wf(entries@),
        _ => true,
    }
}

/// Every entry's subtree is well-formed.
pub open spec fn all_wf(s: Seq<FsDirEntry>) -> bool
    decreases s,
{
    if s.len() == 0 {
        true
    } else {
        wf_tree(s[0].node) && all_wf(s.drop_first())
    }
}

/// `all_wf` holds exactly when each entry's subtree is well-formed.
pub proof fn lemma_all_wf_iff(s: Seq<FsDirEntry>)
    ensures
        all_wf(s) <==> (forall|i: int| 0 <= i < s.len() ==> wf_tree(#[trigger] s[i].node)),
    decreases s,
{
    if s.len() > 0 {
        lemma_all_wf_iff(s.drop_first());
        assert forall|i: int| 1 <= i < s.len() implies s.drop_first()[i - 1] == s[i] by {}
    }
}

/// Every planned path lies at or under the root it was planned for.
pub proof fn lemma_plan_rooted(
    ig: Seq<Seq<Seq<u8>>>,
    doomed: Seq<Seq<Seq<u8>>>,
    p: Seq<Seq<u8>>,
    n: FsNode,
    k: int,
)
    requires
        0 <= k < spec_plan(ig, doomed, p, n).len(),
    ensures
        is_path_prefix(p, spec_plan(ig, doomed, p, n)[k]),
    decreases n,
{
    match n {
        FsNode::Dir { entries, fully_read } => {
            let children = spec_plans(ig, doomed, p, entries@);
            if k < children.len() {
                assert(decreases_to!(n => entries));
                assert(decreases_to!(entries => entries@));
                lemma_plans_attributed(ig, doomed, p, entries@, k);
                let j = choose|j: int|
                    0 <= j < entries@.len() && is_path_prefix(
                        p.push(entries@[j].name@),
                        spec_plans(ig, doomed, p, entries@)[k],
                    );
                assert forall|i: int|
                    0 <= i < p.len() implies spec_plan(ig, doomed, p, n)[k][i] == p[i] by {
                    assert(p.push(entries@[j].name@)[i] == p[i]);
                }
            } else {
                assert(spec_plan(ig, doomed, p, n)[k] == p);
            }
        },
        _ => {},
    }
}

/// Every path in the concatenated child plans lies under one of the
/// children.
proof fn lemma_plans_attributed(
    ig: Seq<Seq<Seq<u8>>>,
    doomed: Seq<Seq<Seq<u8>>>,
    p: Seq<Seq<u8>>,
    s: Seq<FsDirEntry>,
    k: int,
)
    requires
        0 <= k < spec_plans(ig, doomed, p, s).len(),
    ensures
        exists|j: int|
            0 <= j < s.len() && is_path_prefix(
                p.push(#[trigger] s[j].name@),
                spec_plans(ig, doomed, p, s)[k],
            ),
    decreases s,
{
    let left = spec_plans(ig, doomed, p, s.drop_last());
    if k < left.len() {
        lemma_plans_attributed(ig, doomed, p, s.drop_last(), k);
        let j = choose|j: int|
            0 <= j < s.drop_last().len() && is_path_prefix(
                p.push(#[trigger] s.drop_last()[j].name@),
                spec_plans(ig, doomed, p, s.drop_last())[k],
            );
        assert(s.drop_last()[j] == s[j]);
        assert(spec_plans(ig, doomed, p, s)[k] == left[k]);
        assert(is_path_prefix(p.push(s[j].name@), spec_plans(ig, doomed, p, s)[k]));
    } else {
        let last_idx = s.len() - 1;
        assert(decreases_to!(s => s[last_idx]));
        assert(decreases_to!(s[last_idx] => s[last_idx].node));
        lemma_plan_rooted(ig, doomed, p.push(s.last().name@), s.last().node, k - left.len());
        assert(spec_plans(ig, doomed, p, s)[k] == spec_plan(
            ig,
            doomed,
            p.push(s.last().name@),
            s.last().node,
        )[k - left.len()]);
        assert(is_path_prefix(p.push(s[last_idx].name@), spec_plans(ig, doomed, p, s)[k]));
    }
}

/// Ignored-path exclusion for the prune pass: no planned path equals or
/// lies under an ignored path.
pub proof fn lemma_plan_respects_ignored(
    ig: Seq<Seq<Seq<u8>>>,
    doomed: Seq<Seq<Seq<u8>>>,
    p: Seq<Seq<u8>>,
    n: FsNode,
    k: int,
)
    requires
        0 <= k < spec_plan(ig, doomed, p, n).len(),
    ensures
        !under_any_ignored(ig, spec_plan(ig, doomed, p, n)[k]),
    decreases n,
{
    match n {
        FsNode::Dir { entries, fully_read } => {
            let children = spec_plans(ig, doomed, p, entries@);
            if k < children.len() {
                assert(decreases_to!(n => entries));
                assert(decreases_to!(entries => entries@));
                lemma_plans_respect_ignored(ig, doomed, p, entries@, k);
                assert(spec_plan(ig, doomed, p, n)[k] == children[k]);
            } else {
                assert(spec_plan(ig, doomed, p, n)[k] == p);
            }
        },
        _ => {},
    }
}

/// Ignored-path exclusion across the concatenated child plans.
proof fn lemma_plans_respect_ignored(
    ig: Seq<Seq<Seq<u8>>>,
    doomed: Seq<Seq<Seq<u8>>>,
    p: Seq<Seq<u8>>,
    s: Seq<FsDirEntry>,
    k: int,
)
    requires
        0 <= k < spec_plans(ig, doomed, p, s).len(),
    ensures
        !under_any_ignored(ig, spec_plans(ig, doomed, p, s)[k]),
    decreases s,
{
    let left = spec_plans(ig, doomed, p, s.drop_last());
    if k < left.len() {
        lemma_plans_respect_ignored(ig, doomed, p, s.drop_last(), k);
        assert(spec_plans(ig, doomed, p, s)[k] == left[k]);
    } else {
        let last_idx = s.len() - 1;
        assert(decreases_to!(s => s[last_idx]));
        assert(decreases_to!(s[last_idx] => s[last_idx].node));
        lemma_plan_respects_ignored(
            ig,
            doomed,
            p.push(s.last().name@),
            s.last().node,
            k - left.len(),
        );
        assert(spec_plans(ig, doomed, p, s)[k] == spec_plan(
            ig,
            doomed,
            p.push(s.last().name@),
            s.last().node,
        )[k - left.len()]);
    }
}

/// The plan is bottom-up: no planned directory is a proper ancestor of
/// one planned after it. In particular every directory is removed only
/// after all of its removed descendants.
pub proof fn lemma_plan_bottom_up(
    ig: Seq<Seq<Seq<u8>>>,
    doomed: Seq<Seq<Seq<u8>>>,
    p: Seq<Seq<u8>>,
    n: FsNode,
    k1: int,
    k2: int,
)
    requires
        wf_tree(n),
        0 <= k1 < k2 < spec_plan(ig, doomed, p, n).len(),
    ensures
        !is_strict_path_prefix(spec_plan(ig, doomed, p, n)[k1], spec_plan(ig, doomed, p, n)[k2]),
    decreases n,
{
    match n {
        FsNode::Dir { entries, fully_read } => {
            assert(decreases_to!(n => entries));
            assert(decreases_to!(entries => entries@));
            let children = spec_plans(ig, doomed, p, entries@);
            if k2 < children.len() {
                lemma_plans_bottom_up(ig, doomed, p, entries@, k1, k2);
                assert(spec_plan(ig, doomed, p, n)[k1] == children[k1]);
                assert(spec_plan(ig, doomed, p, n)[k2] == children[k2]);
            } else {
                // `k2` is the directory's own path; everything before it
                // is strictly longer.
                assert(spec_plan(ig, doomed, p, n)[k2] == p);
                lemma_plans_attributed(ig, doomed, p, entries@, k1);
                let j = choose|j: int|
                    0 <= j < entries@.len() && is_path_prefix(
                        p.push(#[trigger] entries@[j].name@),
                        children[k1],
                    );
                assert(spec_plan(ig, doomed, p, n)[k1].len() >= p.len() + 1);
            }
        },
        _ => {},
    }
}

/// Bottom-up ordering across the concatenated child plans.
proof fn lemma_plans_bottom_up(
    ig: Seq<Seq<Seq<u8>>>,
    doomed: Seq<Seq<Seq<u8>>>,
    p: Seq<Seq<u8>>,
    s: Seq<FsDirEntry>,
    k1: int,
    k2: int,
)
    requires
        distinct_names(s),
        all_wf(s),
        0 <= k1 < k2 < spec_plans(ig, doomed, p, s).len(),
    ensures
        !is_strict_path_prefix(spec_plans(ig, doomed, p, s)[k1], spec_plans(ig, doomed, p, s)[k2]),
    decreases s,
{
    lemma_all_wf_iff(s);
    let left = spec_plans(ig, doomed, p, s.drop_last());
    let last_idx = s.len() - 1;
    let p2 = p.push(s[last_idx].name@);
    let right = spec_plan(ig, doomed, p2, s[last_idx].node);
    assert(s.last() == s[last_idx]);
    if k2 < left.len() {
        lemma_all_wf_iff(s.drop_last());
        assert forall|i: int| 0 <= i < s.drop_last().len() implies s.drop_last()[i] == s[i] by {}
        lemma_plans_bottom_up(ig, doomed, p, s.drop_last(), k1, k2);
        assert(spec_plans(ig, doomed, p, s)[k1] == left[k1]);
        assert(spec_plans(ig, doomed, p, s)[k2] == left[k2]);
    } else if k1 >= left.len() {
        assert(decreases_to!(s => s[last_idx]));
        assert(decreases_to!(s[last_idx] => s[last_idx].node));
        lemma_plan_bottom_up(ig, doomed, p2, s[last_idx].node, k1 - left.len(), k2 - left.len());
        assert(spec_plans(ig, doomed, p, s)[k1] == right[k1 - left.len()]);
        assert(spec_plans(ig, doomed, p, s)[k2] == right[k2 - left.len()]);
    } else {
        // `k1` lies under some earlier child, `k2` under the last one;
        // the two subtrees share no paths, since the child names differ
        // at the component just below `p`.
        let x = spec_plans(ig, doomed, p, s)[k1];
        let y = spec_plans(ig, doomed, p, s)[k2];
        assert(x == left[k1]);
        assert(y == right[k2 - left.len()]);
        lemma_plans_attributed(ig, doomed, p, s.drop_last(), k1);
        let j = choose|j: int|
            0 <= j < s.drop_last().len() && is_path_prefix(
                p.push(#[trigger] s.drop_last()[j].name@),
                left[k1],
            );
        assert(s.drop_last()[j] == s[j]);
        lemma_plan_rooted(ig, doomed, p2, s[last_idx].node, k2 - left.len());
        if is_strict_path_prefix(x, y) {
            assert(x[p.len() as int] == p.push(s[j].name@)[p.len() as int]);
            assert(x[p.len() as int] == s[j].name@);
            assert(y[p.len() as int] == p2[p.len() as int]);
            assert(y[p.len() as int] == s[last_idx].name@);
            assert(y[p.len() as int] == x[p.len() as int]);
            assert(s[j].name@ == s[last_idx].name@);
            assert(false);
        }
    }
}

/// Computes the deletion plan for the subtree at `path`, appending it to
/// `plan`, and reports whether the subtree vanishes.
#[verifier::loop_isolation(false)]
pub fn prune_plan(
    ignored: &Vec<Vec<Vec<u8>>>,
    doomed: &Vec<Vec<Vec<u8>>>,
    path: &Vec<Vec<u8>>,
    node: &FsNode,
    plan: &mut Vec<Vec<Vec<u8>>>,
) -> (vanished: bool)
    ensures
        final(plan).deep_view() == old(plan).deep_view() + spec_plan(
            ignored.deep_view(),
            doomed.deep_view(),
            path.deep_view(),
            *node,
        ),
        vanished == vanishes(ignored.deep_view(), doomed.deep_view(), path.deep_view(), *node),
    decreases *node,
{
    match node {
        FsNode::Dir { entries, fully_read } => {
            let pd = Ghost(path.deep_view());
            let n_entries = entries.len();
            let mut all_v = true;
            for i in 0..n_entries
                invariant
                    plan.deep_view() == old(plan).deep_view() + spec_plans(
                        ignored.deep_view(),
                        doomed.deep_view(),
                        pd@,
                        entries@.take(i as int),
                    ),
                    all_v <==> all_vanish(
                        ignored.deep_view(),
                        doomed.deep_view(),
                        pd@,
                        entries@.take(i as int),
                    ),
            {
                // The child's path: this directory's path plus the
                // child's name.
                let mut child_path = clone_path(path);
                child_path.push(clone_bytes(&entries[i].name));
                proof {
                    lemma_path_deep_view(child_path);
                    lemma_path_deep_view(*path);
                    assert(child_path.deep_view() =~= pd@.push(entries@[i as int].name@));
                    assert(decreases_to!(*node => *entries));
                    assert(decreases_to!(*entries => entries@));
                    assert(decreases_to!(entries@ => entries@[i as int]));
                    assert(decreases_to!(entries@[i as int] => entries@[i as int].node));
                }
                let child_vanished = prune_plan(ignored, doomed, &child_path, &entries[i].node, plan);
                if !child_vanished {
                    all_v = false;
                }
                proof {
                    let igd = ignored.deep_view();
                    let dd = doomed.deep_view();
                    lemma_spec_plans_take_step(igd, dd, pd@, entries@, i as int);
                    lemma_all_vanish_iff(igd, dd, pd@, entries@.take(i as int));
                    lemma_all_vanish_iff(igd, dd, pd@, entries@.take(i + 1));
                    assert forall|j: int| 0 <= j <= i implies entries@.take(i + 1)[j]
                        == entries@[j] by {}
                }
            }
            proof {
                assert(entries@.take(n_entries as int) =~= entries@);
            }
            if *fully_read && all_v && !is_under_any_ignored(ignored, path) {
                let own_path = clone_path(path);
                proof {
                    lemma_path_list_deep_view(*plan);
                }
                let ghost before = plan.deep_view();
                plan.push(own_path);
                proof {
                    lemma_path_list_deep_view(*plan);
                    assert(plan.deep_view() =~= before.push(pd@));
                    assert(before.push(pd@) =~= old(plan).deep_view() + spec_plan(
                        ignored.deep_view(),
                        doomed.deep_view(),
                        path.deep_view(),
                        *node,
                    ));
                }
                true
            } else {
                false
            }
        },
        FsNode::File => {
            proof {
                assert(old(plan).deep_view() + spec_plan(
                    ignored.deep_view(),
                    doomed.deep_view(),
                    path.deep_view(),
                    *node,
                ) =~= old(plan).deep_view());
            }
            if is_under_any_ignored(ignored, path) {
                false
            } else {
                is_in_path_list(doomed, path)
            }
        },
        FsNode::Symlink => {
            proof {
                assert(old(plan).deep_view() + spec_plan(
                    ignored.deep_view(),
                    doomed.deep_view(),
                    path.deep_view(),
                    *node,
                ) =~= old(plan).deep_view());
            }
            false
        },
    }
}

/// One target folder: its path and the snapshot of its tree. A target
/// that is not a directory is snapshotted as a node that never vanishes.
pub struct TargetTree {
    pub path: Vec<Vec<u8>>,
    pub root: FsNode,
}

/// The deletion plans of all target folders, in order. Each target
/// folder's root is treated like any other directory: it is removed if
/// it ends up empty.
pub open spec fn spec_target_plans(
    ig: Seq<Seq<Seq<u8>>>,
    doomed: Seq<Seq<Seq<u8>>>,
    ts: Seq<TargetTree>,
) -> Seq<Seq<Seq<u8>>>
    decreases ts.len(),
{
    if ts.len() == 0 {
        Seq::empty()
    } else {
        spec_target_plans(ig, doomed, ts.drop_last()) + spec_plan(
            ig,
            doomed,
            ts.last().path.deep_view(),
            ts.last().root,
        )
    }
}

/// The whole prune pass, over every target folder: the directories to
/// remove, in the order they are to be removed. When the pass is not
/// enabled the plan is empty and nothing is touched. A run whose every
/// removal succeeds reports as many removed folders as the plan is
/// long.
pub fn prune_plan_for_targets(
    targets: &Vec<TargetTree>,
    ignored: &Vec<Vec<Vec<u8>>>,
    doomed: &Vec<Vec<Vec<u8>>>,
    delete_empty_folders: bool,
) -> (plan: Vec<Vec<Vec<u8>>>)
    ensures
        delete_empty_folders ==> plan.deep_view() == spec_target_plans(
            ignored.deep_view(),
            doomed.deep_view(),
            targets@,
        ),
        !delete_empty_folders ==> plan.deep_view() == Seq::<Seq<Seq<u8>>>::empty(),
{
    let mut plan: Vec<Vec<Vec<u8>>> = Vec::new();
    proof {
        assert(plan.deep_view() =~= Seq::<Seq<Seq<u8>>>::empty());
    }
    if !delete_empty_folders {
        return plan;
    }
    let n = targets.len();
    for i in 0..n
        invariant
            n == targets@.len(),
            plan.deep_view() == spec_target_plans(
                ignored.deep_view(),
                doomed.deep_view(),
                targets@.take(i as int),
            ),
    {
        let t = &targets[i];
        prune_plan(ignored, doomed, &t.path, &t.root, &mut plan);
        proof {
            assert(targets@.take(i + 1).drop_last() =~= targets@.take(i as int));
            assert(targets@.take(i + 1).last() == targets@[i as int]);
        }
    }
    proof {
        assert(targets@.take(n as int) =~= targets@);
    }
    plan
}

} // verus!
