//! The scheduler: it re-renders the views bound to the nodes that changed.

use crate::holder::HolderId;
use crate::id_set::IdSet;
use crate::reflow::bindings::views_of;
use crate::reflow::bond::{each_unbound, extends, lemma_prefix_contains, lemma_prefix_lacks};
use crate::reflow::{HolderView, RuntimeView};
use crate::reflow::runtime::{lemma_cages_stay, lemma_wf_nodes, Runtime};
use crate::scope::{ids_of, keys_of, position_in_list, same_flags};
use crate::view::{ViewId, ViewKey};
use crate::scope::View;
use crate::view_map::{found_in, patched_at, ViewMap};
use crate::widget::{calm, lemma_calm_trans, lemma_steady_trans, steady, Widget};
use vstd::prelude::*;
use vstd::view::View as _;

verus! {

/// The scheduler stops a run after this many passes, whatever still waits.
pub const MAX_PASSES: usize = 9;

/// Whether the scheduler is in a pass for `holder_id`.
pub fn is_running<T>(rt: &Runtime<T>, holder_id: HolderId) -> (b: bool)
    ensures
        b == rt@.holder(holder_id@).running,
{
    rt.running(holder_id)
}

/// Whether change signals of `holder_id` are suppressed.
pub fn is_untracking<T>(rt: &Runtime<T>, holder_id: HolderId) -> (b: bool)
    ensures
        b == rt@.holder(holder_id@).untracking,
{
    rt.untracking(holder_id)
}

/// Whether `holder_id` is collecting writes in a batch.
pub fn is_batching<T>(rt: &Runtime<T>, holder_id: HolderId) -> (b: bool)
    ensures
        b == rt@.holder(holder_id@).batching,
{
    rt.batching(holder_id)
}

/// The runtime with a batch open for holder `h`.
pub open spec fn batch_opened<T>(rt: RuntimeView<T>, h: u64) -> RuntimeView<T> {
    rt.with_holder(h, HolderView { batching: true, ..rt.holder(h) })
}

/// The runtime with the batch of holder `h` as it `was` before it was opened.
pub open spec fn batch_closed<T>(rt: RuntimeView<T>, h: u64, was: bool) -> RuntimeView<T> {
    rt.with_holder(h, HolderView { batching: was, ..rt.holder(h) })
}

/// Opens a batch for `holder_id` unless one is open; says whether it opened one.
pub fn enter_batch<T>(rt: &mut Runtime<T>, holder_id: HolderId) -> (entered: bool)
    requires
        old(rt).wf(),
    ensures
        final(rt).wf(),
        entered == !old(rt)@.holder(holder_id@).batching,
        final(rt)@ == old(rt)@.with_holder(
            holder_id@,
            HolderView { batching: true, ..old(rt)@.holder(holder_id@) },
        ),
{
    if !rt.batching(holder_id) {
        rt.set_batching(holder_id, true);
        true
    } else {
        proof {
            assert(rt@.holders =~= rt@.holders.insert(holder_id@, rt@.holder(holder_id@)));
        }
        false
    }
}

/// Closes the batch of `holder_id` where `entered` says that the caller opened
/// it. Closing a batch renders nothing: the writes that were queued while it
/// was open wait for the next call of `schedule`, which `batch` and the
/// mounting of a root view make themselves.
pub fn leave_batch<T>(rt: &mut Runtime<T>, holder_id: HolderId, entered: bool)
    requires
        old(rt).wf(),
    ensures
        final(rt).wf(),
        final(rt)@ == if entered {
            old(rt)@.with_holder(
                holder_id@,
                HolderView { batching: false, ..old(rt)@.holder(holder_id@) },
            )
        } else {
            old(rt)@
        },
{
    if entered {
        rt.set_batching(holder_id, false);
    }
}

/// `acc` followed by those of `more` that it lacks, each once, in their order.
pub open spec fn joined(acc: Seq<ViewKey>, more: Seq<ViewKey>) -> Seq<ViewKey>
    decreases more.len(),
{
    if more.len() == 0 {
        acc
    } else {
        let a = joined(acc, more.drop_last());
        if a.contains(more.last()) {
            a
        } else {
            a.push(more.last())
        }
    }
}

/// The views subscribed to any of the nodes `ids`, each once, in the order in
/// which the nodes and their subscribers list them.
pub open spec fn affected<T>(rt: RuntimeView<T>, ids: Seq<u64>) -> Seq<ViewKey>
    decreases ids.len(),
{
    if ids.len() == 0 {
        Seq::empty()
    } else {
        joined(affected(rt, ids.drop_last()), views_of(rt.node(ids.last()).bindings))
    }
}

/// `pre` with each of `views`, in turn, taken from the subscribers of each of
/// the nodes `ids`.
pub open spec fn all_unbound<T>(pre: RuntimeView<T>, ids: Seq<u64>, views: Seq<ViewKey>) -> RuntimeView<
    T,
>
    decreases views.len(),
{
    if views.len() == 0 {
        pre
    } else {
        each_unbound(all_unbound(pre, ids, views.drop_last()), ids, views.last())
    }
}

/// Joining keeps a list free of repeats.
pub proof fn lemma_joined(acc: Seq<ViewKey>, more: Seq<ViewKey>)
    requires
        acc.no_duplicates(),
    ensures
        joined(acc, more).no_duplicates(),
    decreases more.len(),
{
    if more.len() > 0 {
        lemma_joined(acc, more.drop_last());
        let a = joined(acc, more.drop_last());
        if !a.contains(more.last()) {
            let out = a.push(more.last());
            assert forall|i: int, j: int|
                0 <= i < out.len() && 0 <= j < out.len() && i != j implies out[i] != out[j] by {
                if i < a.len() && j < a.len() {
                } else if i < a.len() {
                    assert(a.contains(a[i]));
                } else {
                    assert(a.contains(a[j]));
                }
            }
        }
    }
}

/// The views to re-render in the current pass of `holder_id`: those subscribed
/// to any node of the pass, each once.
pub fn revising_view_ids<T>(rt: &Runtime<T>, holder_id: HolderId) -> (list: Vec<ViewId>)
    requires
        rt.wf(),
    ensures
        keys_of(list@) == affected(rt@, rt@.holder(holder_id@).revising),
        keys_of(list@).no_duplicates(),
{
    let ghost ids = rt@.holder(holder_id@).revising;
    proof {
        assert(rt@.holder_ok(rt@.holders[holder_id@]));
    }
    let mut list: Vec<ViewId> = Vec::new();
    let n = rt.revising_len(holder_id);
    let mut i: usize = 0;
    assert(keys_of(list@) =~= affected(rt@, ids.subrange(0, 0)));
    while i < n
        invariant
            rt.wf(),
            ids == rt@.holder(holder_id@).revising,
            rt@.cages(ids),
            n == ids.len(),
            i <= n,
            keys_of(list@) == affected(rt@, ids.subrange(0, i as int)),
            keys_of(list@).no_duplicates(),
        decreases n - i,
    {
        let id = rt.revising_at(holder_id, i).unwrap();
        assert(rt@.is_cage(ids[i as int]));
        let bindings = rt.bindings(id);
        let ghost more = views_of(bindings@);
        let ghost acc = keys_of(list@);
        let m = bindings.len();
        let mut j: usize = 0;
        assert(more.subrange(0, 0) =~= Seq::<ViewKey>::empty());
        while j < m
            invariant
                m == bindings@.len(),
                more == views_of(bindings@),
                j <= m,
                acc.no_duplicates(),
                keys_of(list@) == joined(acc, more.subrange(0, j as int)),
                keys_of(list@).no_duplicates(),
            decreases m - j,
        {
            let view_id = bindings.view_at(j);
            proof {
                assert(more.subrange(0, j + 1).drop_last() =~= more.subrange(0, j as int));
                assert(more.subrange(0, j + 1).last() == view_id@);
                lemma_joined(acc, more.subrange(0, j + 1));
            }
            let ghost so_far = keys_of(list@);
            match position_in_list(&list, view_id) {
                None => {
                    list.push(view_id.clone());
                    assert(keys_of(list@) =~= so_far.push(view_id@));
                },
                Some(p) => {
                    assert(so_far[p as int] == view_id@);
                },
            }
            assert(keys_of(list@) == joined(acc, more.subrange(0, j + 1)));
            j = j + 1;
        }
        proof {
            assert(more.subrange(0, m as int) =~= more);
            assert(ids.subrange(0, i + 1).drop_last() =~= ids.subrange(0, i as int));
            assert(ids.subrange(0, i + 1).last() == id@);
        }
        i = i + 1;
    }
    assert(ids.subrange(0, n as int) =~= ids);
    list
}

/// Taking a view from the subscribers of cages keeps the runtime well formed.
pub proof fn lemma_each_unbound<T>(pre: RuntimeView<T>, ids: Seq<u64>, v: ViewKey)
    requires
        pre.wf(),
    ensures
        each_unbound(pre, ids, v).wf(),
        extends(pre, each_unbound(pre, ids, v)),
        each_unbound(pre, ids, v).layers == pre.layers,
        each_unbound(pre, ids, v).holders == pre.holders,
{
    let post = each_unbound(pre, ids, v);
    assert forall|i: int| 0 <= i < post.nodes.len() implies (#[trigger] post.nodes[i] == pre.nodes[i]
        && i < pre.nodes.len()) || post.node_ok(post.nodes[i]) by {
        assert(pre.node_ok(pre.nodes[i]));
        if ids.contains((i + 1) as u64) {
            crate::reflow::bindings::lemma_without_view(pre.nodes[i].bindings, v);
            lemma_cages_stay(pre, post, pre.nodes[i].gathers);
        }
    }
    lemma_wf_nodes(pre, post);
}

/// Takes `view_id` from the subscribers of each node in the current pass of
/// `holder_id`.
fn strip_view<T>(rt: &mut Runtime<T>, holder_id: HolderId, view_id: &ViewId)
    requires
        old(rt).wf(),
    ensures
        final(rt).wf(),
        final(rt)@ == each_unbound(old(rt)@, old(rt)@.holder(holder_id@).revising, view_id@),
{
    let ghost pre = rt@;
    let ghost gs = rt@.holder(holder_id@).revising;
    proof {
        assert(pre.holder_ok(pre.holders[holder_id@]));
        assert(rt@.nodes =~= each_unbound(pre, gs.subrange(0, 0), view_id@).nodes);
    }
    let n = rt.revising_len(holder_id);
    let mut j: usize = 0;
    while j < n
        invariant
            rt.wf(),
            pre.wf(),
            pre.cages(gs),
            rt@.holder(holder_id@).revising == gs,
            n == gs.len(),
            j <= n,
            rt@ == each_unbound(pre, gs.subrange(0, j as int), view_id@),
        decreases n - j,
    {
        let g = rt.revising_at(holder_id, j).unwrap();
        proof {
            assert(pre.is_cage(gs[j as int]));
            lemma_prefix_lacks(gs, j as int);
        }
        rt.unbind(g, view_id);
        proof {
            let next = each_unbound(pre, gs.subrange(0, j + 1), view_id@);
            assert forall|k: int| 0 <= k < next.nodes.len() implies rt@.nodes[k] == next.nodes[k] by {
                let id = (k + 1) as u64;
                lemma_prefix_contains(gs, j as int, id);
            }
            assert(rt@.nodes =~= next.nodes);
        }
        j = j + 1;
    }
    assert(gs.subrange(0, n as int) =~= gs);
}

/// Takes each of `views` from the subscribers of each node in the current pass
/// of `holder_id`: the views that the pass could not find are forgotten.
pub fn strip_views<T>(rt: &mut Runtime<T>, holder_id: HolderId, views: &Vec<ViewId>)
    requires
        old(rt).wf(),
    ensures
        final(rt).wf(),
        final(rt)@ == all_unbound(
            old(rt)@,
            old(rt)@.holder(holder_id@).revising,
            keys_of(views@),
        ),
{
    let ghost pre = rt@;
    let ghost gs = rt@.holder(holder_id@).revising;
    let ghost vs = keys_of(views@);
    let n = views.len();
    let mut i: usize = 0;
    while i < n
        invariant
            rt.wf(),
            n == views.len(),
            vs == keys_of(views@),
            i <= n,
            rt@.holder(holder_id@).revising == gs,
            rt@ == all_unbound(pre, gs, vs.subrange(0, i as int)),
        decreases n - i,
    {
        proof {
            assert(vs.subrange(0, i + 1).drop_last() =~= vs.subrange(0, i as int));
            lemma_each_unbound(rt@, gs, vs[i as int]);
        }
        strip_view(rt, holder_id, &views[i]);
        i = i + 1;
    }
    assert(vs.subrange(0, n as int) =~= vs);
}

/// How a pass of the scheduler ends.
#[derive(Debug, Clone, Copy, PartialEq, Eq, Structural)]
pub enum Turn {
    /// Nodes changed during the pass: they make up the next pass.
    Again,
    /// Nodes changed during the pass, but too many passes have run: they are
    /// dropped with the pass and the run ends.
    Truncated,
    /// Nothing changed during the pass: the run ends.
    Quiescent,
}

/// How the pass numbered `passes` ends, counting from 1, for a holder in state `hv`.
pub open spec fn turn_of(hv: HolderView, passes: nat) -> Turn {
    if hv.pending.len() == 0 {
        Turn::Quiescent
    } else if passes >= MAX_PASSES {
        Turn::Truncated
    } else {
        Turn::Again
    }
}

/// The state of a holder after the pass numbered `passes` has ended: the nodes
/// that waited make up the next pass. Where none waited the pass is emptied;
/// where the run is cut short both the pass and what waited are dropped, so
/// that the next write starts a run again.
pub open spec fn turned(hv: HolderView, passes: nat) -> HolderView {
    match turn_of(hv, passes) {
        Turn::Quiescent => HolderView { revising: Seq::empty(), pending: Seq::empty(), ..hv },
        Turn::Truncated => HolderView { revising: Seq::empty(), pending: Seq::empty(), ..hv },
        Turn::Again => HolderView { revising: hv.pending, pending: Seq::empty(), ..hv },
    }
}

/// Ends the pass numbered `passes` for `holder_id`.
pub fn turn_over<T>(rt: &mut Runtime<T>, holder_id: HolderId, passes: usize) -> (turn: Turn)
    requires
        old(rt).wf(),
    ensures
        final(rt).wf(),
        turn == turn_of(old(rt)@.holder(holder_id@), passes as nat),
        final(rt)@ == old(rt)@.with_holder(
            holder_id@,
            turned(old(rt)@.holder(holder_id@), passes as nat),
        ),
{
    let pending_items = rt.take_pending(holder_id);
    if !pending_items.is_empty() {
        if passes >= MAX_PASSES {
            rt.set_revising(holder_id, IdSet::new());
            proof {
                assert(rt@.holders =~= old(rt)@.with_holder(
                    holder_id@,
                    turned(old(rt)@.holder(holder_id@), passes as nat),
                ).holders);
            }
            Turn::Truncated
        } else {
            rt.set_revising(holder_id, pending_items);
            proof {
                assert(rt@.holders =~= old(rt)@.with_holder(
                    holder_id@,
                    turned(old(rt)@.holder(holder_id@), passes as nat),
                ).holders);
            }
            Turn::Again
        }
    } else {
        rt.set_revising(holder_id, IdSet::new());
        proof {
            assert(old(rt)@.holder(holder_id@).pending =~= Seq::<u64>::empty());
            assert(rt@.holders =~= old(rt)@.with_holder(
                holder_id@,
                turned(old(rt)@.holder(holder_id@), passes as nat),
            ).holders);
        }
        Turn::Quiescent
    }
}

/// What a run of the scheduler reports.
#[derive(Debug, Clone, Copy)]
pub struct Report {
    /// The number of passes made.
    pub passes: usize,
    /// Whether the run was cut short with nodes still waiting.
    pub truncated: bool,
}

/// What a run of the scheduler for holder `h` leaves of the flags and queues:
/// the runtime is well formed with the nodes it had, the holder is in no pass,
/// its pass is empty and nothing waits for it, and every other flag of every
/// holder is as before.
pub open spec fn settled<T>(pre: Runtime<T>, post: Runtime<T>, h: u64) -> bool {
    &&& post.wf()
    &&& extends(pre@, post@)
    &&& post@.layers.len() == pre@.layers.len()
    &&& !post@.holder(h).running
    &&& post@.holder(h).pending.len() == 0
    &&& post@.holder(h).revising.len() == 0
    &&& forall|k: u64|
        (#[trigger] post@.holder(k)).batching == pre@.holder(k).batching && post@.holder(
            k,
        ).untracking == pre@.holder(k).untracking && (k != h ==> post@.holder(k).running
            == pre@.holder(k).running)
}

/// One view of a pass. A view of holder `h` that is found among `vs0` is
/// patched: it is left as its `patch` hook leaves it. Any other view is
/// added to those that are missing, and nothing changes.
pub open spec fn patch_step<T, W: Widget<T>>(
    vs0: Seq<View<W>>,
    r0: Runtime<T>,
    missing0: Seq<ViewKey>,
    key: ViewKey,
    h: u64,
    vs1: Seq<View<W>>,
    r1: Runtime<T>,
    missing1: Seq<ViewKey>,
) -> bool {
    if key.holder == h && found_in(vs0, key).is_some() {
        patched_at(vs0, r0, key, vs1, r1) && missing1 == missing0
    } else {
        vs1 == vs0 && r1 == r0 && missing1 == missing0.push(key)
    }
}

/// The views `list` were taken in turn, each as `patch_step` says, starting
/// from `vs0` and `r0` with no view missing; `vs1`, `r1` and `missing` are what
/// that left.
pub open spec fn patched_list<T, W: Widget<T>>(
    vs0: Seq<View<W>>,
    r0: Runtime<T>,
    list: Seq<ViewKey>,
    h: u64,
    vs1: Seq<View<W>>,
    r1: Runtime<T>,
    missing: Seq<ViewKey>,
) -> bool
    decreases list.len(),
{
    if list.len() == 0 {
        vs1 == vs0 && r1 == r0 && missing == Seq::<ViewKey>::empty()
    } else {
        exists|vm: Seq<View<W>>, rm: Runtime<T>, mm: Seq<ViewKey>|
            patched_list(vs0, r0, list.drop_last(), h, vm, rm, mm) && #[trigger] patch_step(
                vm,
                rm,
                mm,
                list.last(),
                h,
                vs1,
                r1,
                missing,
            )
    }
}

/// One more view taken makes the list taken one longer.
pub proof fn lemma_patched_list_step<T, W: Widget<T>>(
    vs0: Seq<View<W>>,
    r0: Runtime<T>,
    list: Seq<ViewKey>,
    h: u64,
    vm: Seq<View<W>>,
    rm: Runtime<T>,
    mm: Seq<ViewKey>,
    vs1: Seq<View<W>>,
    r1: Runtime<T>,
    missing: Seq<ViewKey>,
)
    requires
        list.len() > 0,
        patched_list(vs0, r0, list.drop_last(), h, vm, rm, mm),
        patch_step(vm, rm, mm, list.last(), h, vs1, r1, missing),
    ensures
        patched_list(vs0, r0, list, h, vs1, r1, missing),
{
}

/// The runtime after the views `missing` were forgotten by the nodes of the
/// pass of holder `h`.
pub open spec fn stripped<T>(rt: RuntimeView<T>, h: u64, missing: Seq<ViewKey>) -> RuntimeView<T> {
    all_unbound(rt, rt.holder(h).revising, missing)
}

/// The pass numbered `passes` of a run for holder `h`, from `vs0` and `r0` to
/// `vs1` and `r1`. The views subscribed to the nodes of the pass are taken in
/// turn, each once: those found are patched. The views not found are forgotten
/// by the nodes of the pass. Then the queues turn, and `turn` says how.
pub open spec fn pass_made<T, W: Widget<T>>(
    vs0: Seq<View<W>>,
    r0: Runtime<T>,
    h: u64,
    passes: nat,
    vs1: Seq<View<W>>,
    r1: Runtime<T>,
    turn: Turn,
) -> bool {
    exists|ra: Runtime<T>, missing: Seq<ViewKey>| #[trigger]
        patched_list(vs0, r0, affected(r0@, r0@.holder(h).revising), h, vs1, ra, missing)
            && turn == turn_of(stripped(ra@, h, missing).holder(h), passes) && r1@ == stripped(
            ra@,
            h,
            missing,
        ).with_holder(h, turned(stripped(ra@, h, missing).holder(h), passes))
}

/// The first `n` passes of a run for holder `h` were made, from `vs0` and `r0`
/// to `vs1` and `r1`, and each of them asked for another.
pub open spec fn passes_made<T, W: Widget<T>>(
    vs0: Seq<View<W>>,
    r0: Runtime<T>,
    h: u64,
    n: nat,
    vs1: Seq<View<W>>,
    r1: Runtime<T>,
) -> bool
    decreases n,
{
    if n == 0 {
        vs1 == vs0 && r1 == r0
    } else {
        exists|vm: Seq<View<W>>, rm: Runtime<T>|
            passes_made(vs0, r0, h, (n - 1) as nat, vm, rm) && #[trigger] pass_made(
                vm,
                rm,
                h,
                n,
                vs1,
                r1,
                Turn::Again,
            )
    }
}

/// A run of the scheduler for holder `h` was made, from `vs0` and `r0` to `vs1`
/// and `r1`, in `passes` passes. The holder is marked as running; the passes
/// are made one after the other, each but the last asking for another; the
/// last ends the run, cut short exactly where `truncated` says so; then the
/// holder is marked as not running, and whether the run was cut short is noted.
pub open spec fn run_made<T, W: Widget<T>>(
    vs0: Seq<View<W>>,
    r0: Runtime<T>,
    h: u64,
    vs1: Seq<View<W>>,
    r1: Runtime<T>,
    passes: nat,
    truncated: bool,
) -> bool {
    exists|
        ra: Runtime<T>,
        before: nat,
        vm: Seq<View<W>>,
        rm: Runtime<T>,
        rb: Runtime<T>,
        turn: Turn,
    |
        ra@ == r0@.with_holder(h, HolderView { running: true, ..r0@.holder(h) }) && before + 1
            == passes && #[trigger] passes_made(vs0, ra, h, before, vm, rm) && #[trigger] pass_made(
            vm,
            rm,
            h,
            passes,
            vs1,
            rb,
            turn,
        ) && turn != Turn::Again && truncated == (turn == Turn::Truncated) && r1@
            == rb@.with_holder(
            h,
            HolderView { running: false, cut_short: truncated, ..rb@.holder(h) },
        )
}

/// Forgetting views keeps the runtime calm and changes no holder.
pub proof fn lemma_all_unbound<T>(pre: RuntimeView<T>, ids: Seq<u64>, views: Seq<ViewKey>)
    requires
        pre.wf(),
    ensures
        all_unbound(pre, ids, views).wf(),
        calm(pre, all_unbound(pre, ids, views)),
        all_unbound(pre, ids, views).holders == pre.holders,
        all_unbound(pre, ids, views).layers == pre.layers,
    decreases views.len(),
{
    if views.len() > 0 {
        lemma_all_unbound(pre, ids, views.drop_last());
        let mid = all_unbound(pre, ids, views.drop_last());
        lemma_each_unbound(mid, ids, views.last());
        let post = each_unbound(mid, ids, views.last());
        assert forall|i: int| 0 <= i < pre.nodes.len() implies (#[trigger] post.nodes[i]).is_bond
            == pre.nodes[i].is_bond by {
            assert(mid.nodes[i].is_bond == pre.nodes[i].is_bond);
        }
    }
}

/// Makes one pass for `holder_id`: the views subscribed to the nodes of the
/// pass are patched, each once and in their order; those that are not found
/// among the views of the holder are forgotten by the nodes of the pass; then
/// the queues turn.
pub fn pass<T, W: Widget<T>>(
    rt: &mut Runtime<T>,
    views: &mut ViewMap<W>,
    holder_id: HolderId,
    passes: usize,
) -> (turn: Turn)
    requires
        old(rt).wf(),
        old(views).wf(),
    ensures
        final(rt).wf(),
        final(views).wf(),
        ids_of(final(views).0@) == ids_of(old(views).0@),
        same_flags(old(views).0@, final(views).0@),
        steady(*old(rt), *final(rt)),
        final(rt)@.holder(holder_id@).pending.len() == 0,
        turn != Turn::Again ==> final(rt)@.holder(holder_id@).revising.len() == 0,
        turn == Turn::Again ==> passes < MAX_PASSES,
        pass_made(old(views).0@, *old(rt), holder_id@, passes as nat, final(views).0@, *final(rt), turn),
        affected(old(rt)@, old(rt)@.holder(holder_id@).revising).len() == 0 ==> *final(views)
            == *old(views),
{
    let ghost r0 = *rt;
    let ghost vs0 = views.0@;
    let revising_view_ids = revising_view_ids(rt, holder_id);
    let ghost list = keys_of(revising_view_ids@);
    let mut not_found_view_ids: Vec<ViewId> = Vec::new();
    let n = revising_view_ids.len();
    let mut i: usize = 0;
    proof {
        assert(keys_of(not_found_view_ids@) =~= Seq::<ViewKey>::empty());
        assert(list.subrange(0, 0) =~= Seq::<ViewKey>::empty());
    }
    while i < n
        invariant
            rt.wf(),
            views.wf(),
            r0.wf(),
            ids_of(views.0@) == ids_of(old(views).0@),
            same_flags(old(views).0@, views.0@),
            steady(r0, *rt),
            n == revising_view_ids.len(),
            list == keys_of(revising_view_ids@),
            i <= n,
            vs0 == old(views).0@,
            n == 0 ==> *views == *old(views),
            patched_list(
                vs0,
                r0,
                list.subrange(0, i as int),
                holder_id@,
                views.0@,
                *rt,
                keys_of(not_found_view_ids@),
            ),
        decreases n - i,
    {
        let view_id = &revising_view_ids[i];
        let ghost rm = *rt;
        let ghost vm = views.0@;
        let ghost mm = keys_of(not_found_view_ids@);
        let found = view_id.holder_id() == holder_id && views.patch(view_id, rt);
        if !found {
            not_found_view_ids.push(view_id.clone());
            assert(keys_of(not_found_view_ids@) =~= mm.push(view_id@));
        }
        proof {
            lemma_steady_trans(r0, rm, *rt);
            let upto = list.subrange(0, i + 1);
            assert(upto.drop_last() =~= list.subrange(0, i as int));
            assert(upto.last() == view_id@);
            assert(patch_step(
                vm,
                rm,
                mm,
                view_id@,
                holder_id@,
                views.0@,
                *rt,
                keys_of(not_found_view_ids@),
            ));
            lemma_patched_list_step(
                vs0,
                r0,
                upto,
                holder_id@,
                vm,
                rm,
                mm,
                views.0@,
                *rt,
                keys_of(not_found_view_ids@),
            );
        }
        i = i + 1;
    }
    let ghost r2 = *rt;
    proof {
        assert(list.subrange(0, n as int) =~= list);
    }
    strip_views(rt, holder_id, &not_found_view_ids);
    let ghost r3 = *rt;
    let turn = turn_over(rt, holder_id, passes);
    proof {
        lemma_all_unbound(r2@, r2@.holder(holder_id@).revising, keys_of(not_found_view_ids@));
        lemma_calm_trans(r0@, r2@, r3@);
        assert(calm(r3@, rt@)) by {
            assert forall|k: u64|
                (#[trigger] rt@.holder(k)).running == r3@.holder(k).running && rt@.holder(
                    k,
                ).batching == r3@.holder(k).batching && rt@.holder(k).untracking == r3@.holder(
                    k,
                ).untracking by {}
        }
        lemma_calm_trans(r0@, r3@, rt@);
        assert(r3@ == stripped(r2@, holder_id@, keys_of(not_found_view_ids@)));
    }
    turn
}

/// Runs the scheduler for `holder_id`: pass after pass, the views subscribed to
/// the nodes of the pass are re-rendered, the views that are gone are forgotten,
/// and the nodes that changed meanwhile make up the next pass. The run ends
/// when nothing changed during a pass, and after the ninth pass at the latest;
/// whether it was cut short then is reported and noted for the holder.
/// Only views of `holder_id` are looked for in `views`.
pub fn run<T, W: Widget<T>>(rt: &mut Runtime<T>, views: &mut ViewMap<W>, holder_id: HolderId) -> (report:
    Report)
    requires
        old(rt).wf(),
        old(views).wf(),
    ensures
        final(views).wf(),
        ids_of(final(views).0@) == ids_of(old(views).0@),
        same_flags(old(views).0@, final(views).0@),
        settled(*old(rt), *final(rt), holder_id@),
        1 <= report.passes <= MAX_PASSES,
        report.truncated ==> report.passes == MAX_PASSES,
        final(rt)@.holder(holder_id@).cut_short == report.truncated,
        run_made(
            old(views).0@,
            *old(rt),
            holder_id@,
            final(views).0@,
            *final(rt),
            report.passes as nat,
            report.truncated,
        ),
        affected(old(rt)@, old(rt)@.holder(holder_id@).revising).len() == 0 && old(rt)@.holder(
            holder_id@,
        ).pending.len() == 0 ==> report.passes == 1 && !report.truncated && *final(views) == *old(views) && final(rt)@ == old(rt)@.with_holder(
            holder_id@,
            HolderView {
                running: false,
                revising: Seq::empty(),
                pending: Seq::empty(),
                cut_short: false,
                ..old(rt)@.holder(holder_id@)
            },
        ),
{
    let ghost r0 = *rt;
    let ghost vs0 = views.0@;
    rt.set_running(holder_id, true);
    let ghost r1 = *rt;
    let mut loop_counts: usize = 0;
    let mut truncated = false;
    let mut done = false;
    let ghost mut last_views = views.0@;
    let ghost mut last_rt = *rt;
    let ghost mut last_turn = Turn::Again;
    while !done
        invariant
            rt.wf(),
            views.wf(),
            ids_of(views.0@) == ids_of(old(views).0@),
            same_flags(old(views).0@, views.0@),
            vs0 == old(views).0@,
            r1.wf(),
            steady(r1, *rt),
            !done ==> loop_counts < MAX_PASSES,
            loop_counts <= MAX_PASSES,
            done ==> loop_counts >= 1,
            done ==> rt@.holder(holder_id@).pending.len() == 0,
            truncated ==> done && loop_counts == MAX_PASSES,
            done ==> rt@.holder(holder_id@).revising.len() == 0,
            loop_counts == 0 ==> *views == *old(views),
            loop_counts == 1 && affected(r1@, r1@.holder(holder_id@).revising).len() == 0 ==> *views
                == *old(views),
            !done ==> passes_made(vs0, r1, holder_id@, loop_counts as nat, views.0@, *rt),
            done ==> passes_made(
                vs0,
                r1,
                holder_id@,
                (loop_counts - 1) as nat,
                last_views,
                last_rt,
            ) && pass_made(
                last_views,
                last_rt,
                holder_id@,
                loop_counts as nat,
                views.0@,
                *rt,
                last_turn,
            ) && last_turn != Turn::Again && truncated == (last_turn == Turn::Truncated),
        decreases MAX_PASSES - loop_counts,
    {
        let ghost before_views = views.0@;
        let ghost before_rt = *rt;
        proof {
            if loop_counts == 0 {
                assert(*rt == r1);
            }
        }
        loop_counts = loop_counts + 1;
        let turn = pass(rt, views, holder_id, loop_counts);
        proof {
            lemma_steady_trans(r1, before_rt, *rt);
            same_flags_trans(old(views).0@, before_views, views.0@);
        }
        match turn {
            Turn::Again => {},
            Turn::Truncated => {
                truncated = true;
                done = true;
            },
            Turn::Quiescent => {
                done = true;
            },
        }
        proof {
            if done {
                last_views = before_views;
                last_rt = before_rt;
                last_turn = turn;
            }
        }
    }
    let ghost r4 = *rt;
    rt.set_running(holder_id, false);
    rt.set_cut_short(holder_id, truncated);
    proof {
        assert forall|i: int| 0 <= i < r0@.nodes.len() implies (#[trigger] rt@.nodes[i]).is_bond
            == r0@.nodes[i].is_bond by {
            assert(r4@.nodes[i].is_bond == r1@.nodes[i].is_bond);
        }
        assert forall|k: u64|
            (#[trigger] rt@.holder(k)).batching == r0@.holder(k).batching && rt@.holder(
                k,
            ).untracking == r0@.holder(k).untracking && (k != holder_id@ ==> rt@.holder(k).running
                == r0@.holder(k).running) by {
            assert(r4@.holder(k).running == r1@.holder(k).running);
        }
        assert(rt@.holders =~= r4@.with_holder(
            holder_id@,
            HolderView { running: false, cut_short: truncated, ..r4@.holder(holder_id@) },
        ).holders);
        assert(run_made(
            vs0,
            r0,
            holder_id@,
            views.0@,
            *rt,
            loop_counts as nat,
            truncated,
        ));
        if affected(r0@, r0@.holder(holder_id@).revising).len() == 0 && r0@.holder(
            holder_id@,
        ).pending.len() == 0 {
            crate::laws::law_quiet_run(
                vs0,
                r0,
                holder_id@,
                views.0@,
                *rt,
                loop_counts as nat,
                truncated,
            );
            crate::laws::law_affected_of_nodes(r0@, r1@, r0@.holder(holder_id@).revising);
        }
    }
    Report { passes: loop_counts, truncated }
}

/// Flags that stay through two steps stay through both.
pub proof fn same_flags_trans<W>(a: Seq<View<W>>, b: Seq<View<W>>, c: Seq<View<W>>)
    requires
        same_flags(a, b),
        same_flags(b, c),
    ensures
        same_flags(a, c),
{
    assert forall|i: int| 0 <= i < a.len() implies (#[trigger] c[i]).scope.is_attached
        == a[i].scope.is_attached && c[i].scope.is_built == a[i].scope.is_built
        && c[i].scope.is_root == a[i].scope.is_root by {
        assert(b[i].scope.is_attached == a[i].scope.is_attached);
    }
}

/// What `schedule` makes of the views and the runtime: nothing while the holder
/// is in a pass or a batch is open, else what a run makes of them.
pub open spec fn scheduled<T, W: Widget<T>>(
    vs0: Seq<View<W>>,
    pre: Runtime<T>,
    vs1: Seq<View<W>>,
    post: Runtime<T>,
    h: u64,
) -> bool {
    if pre@.holder(h).running || pre@.holder(h).batching {
        post == pre && vs1 == vs0
    } else {
        &&& settled(pre, post, h)
        &&& exists|passes: nat, truncated: bool|
            1 <= passes <= MAX_PASSES && #[trigger] run_made(
                vs0,
                pre,
                h,
                vs1,
                post,
                passes,
                truncated,
            )
    }
}

/// Runs the scheduler for `holder_id` unless it is in a pass or a batch is open.
pub fn schedule<T, W: Widget<T>>(rt: &mut Runtime<T>, views: &mut ViewMap<W>, holder_id: HolderId)
    requires
        old(rt).wf(),
        old(views).wf(),
    ensures
        final(rt).wf(),
        final(views).wf(),
        ids_of(final(views).0@) == ids_of(old(views).0@),
        same_flags(old(views).0@, final(views).0@),
        old(rt)@.holder(holder_id@).running || old(rt)@.holder(holder_id@).batching ==> *final(rt)
            == *old(rt) && *final(views) == *old(views),
        scheduled(old(views).0@, *old(rt), final(views).0@, *final(rt), holder_id@),
{
    if !is_running(rt, holder_id) && !is_batching(rt, holder_id) {
        let _ = run(rt, views, holder_id);
    }
}

/// Runs `opt` with the writes of `holder_id` collected: no scheduler run starts
/// before `opt` has returned, and then one is scheduled. Inside a batch that is
/// open already `opt` just runs.
pub fn batch<T, W: Widget<T>, R, F: FnOnce(&mut Runtime<T>, &mut ViewMap<W>) -> R>(
    rt: &mut Runtime<T>,
    views: &mut ViewMap<W>,
    holder_id: HolderId,
    opt: F,
) -> (out: R)
    requires
        old(rt).wf(),
        old(views).wf(),
        forall|r: &mut Runtime<T>, v: &mut ViewMap<W>|
            mut_ref_current(r).wf() && mut_ref_current(v).wf() && extends(
                old(rt)@,
                mut_ref_current(r)@,
            ) ==> call_requires(opt, (r, v)),
        forall|r: &mut Runtime<T>, v: &mut ViewMap<W>, out: R| #[trigger]
            call_ensures(opt, (r, v), out) ==> steady(mut_ref_current(r), mut_ref_future(r))
                && mut_ref_future(v).wf(),
    ensures
        final(rt).wf(),
        final(views).wf(),
        old(rt)@.holder(holder_id@).batching ==> exists|r: &mut Runtime<T>, v: &mut ViewMap<W>|
            mut_ref_current(r) == *old(rt) && mut_ref_current(v) == *old(views) && #[trigger] call_ensures(
                opt,
                (r, v),
                out,
            ) && mut_ref_future(r) == *final(rt) && mut_ref_future(v) == *final(views),
        !old(rt)@.holder(holder_id@).batching ==> exists|
            r: &mut Runtime<T>,
            v: &mut ViewMap<W>,
            mid: Runtime<T>,
        |
            mut_ref_current(r)@ == old(rt)@.with_holder(
                holder_id@,
                HolderView { batching: true, ..old(rt)@.holder(holder_id@) },
            ) && mut_ref_current(v) == *old(views) && #[trigger] call_ensures(opt, (r, v), out)
                && mid@ == mut_ref_future(r)@.with_holder(
                holder_id@,
                HolderView { batching: false, ..mut_ref_future(r)@.holder(holder_id@) },
            ) && mid.wf() && #[trigger] scheduled(
                mut_ref_future(v).0@,
                mid,
                final(views).0@,
                *final(rt),
                holder_id@,
            ),
{
    if !is_batching(rt, holder_id) {
        rt.set_batching(holder_id, true);
        let out = opt(rt, views);
        rt.set_batching(holder_id, false);
        let ghost mid = *rt;
        let ghost mid_views = views.0@;
        schedule(rt, views, holder_id);
        assert(scheduled(mid_views, mid, views.0@, *rt, holder_id@));
        out
    } else {
        opt(rt, views)
    }
}

/// Runs `opt` with the change signals of `holder_id` suppressed: a write made
/// meanwhile raises the version but queues nothing.
pub fn untrack<T, R, F: FnOnce(&mut Runtime<T>) -> R>(
    rt: &mut Runtime<T>,
    holder_id: HolderId,
    opt: F,
) -> (out: R)
    requires
        old(rt).wf(),
        forall|r: &mut Runtime<T>|
            mut_ref_current(r).wf() && extends(old(rt)@, mut_ref_current(r)@) ==> call_requires(
                opt,
                (r,),
            ),
        forall|r: &mut Runtime<T>, out: R| #[trigger]
            call_ensures(opt, (r,), out) ==> steady(mut_ref_current(r), mut_ref_future(r)),
    ensures
        final(rt).wf(),
        exists|r: &mut Runtime<T>|
            mut_ref_current(r)@ == old(rt)@.with_holder(
                holder_id@,
                HolderView { untracking: true, ..old(rt)@.holder(holder_id@) },
            ) && #[trigger] call_ensures(opt, (r,), out) && final(rt)@ == mut_ref_future(r)@.with_holder(
                holder_id@,
                HolderView {
                    untracking: old(rt)@.holder(holder_id@).untracking,
                    ..mut_ref_future(r)@.holder(holder_id@)
                },
            ),
{
    if !is_untracking(rt, holder_id) {
        rt.set_untracking(holder_id, true);
        let out = opt(rt);
        rt.set_untracking(holder_id, false);
        out
    } else {
        proof {
            assert(rt@.holders =~= rt@.holders.insert(holder_id@, rt@.holder(holder_id@)));
        }
        let out = opt(rt);
        proof {
            assert(rt@.holders =~= rt@.holders.insert(holder_id@, rt@.holder(holder_id@)));
        }
        out
    }
}

} // verus!
