//! What holds of the runtime whatever the widgets do.

use crate::reflow::bindings::{
    count_of, distinct, has_view, lemma_index_of_view, lemma_without_view, loosened, views_of,
    with_binding, without_view, BindingView,
};
use crate::keyed_views::{has_key, key_place, keys_distinct, lemma_key_place, with_entry, without_entry};
use crate::reflow::bond::{all_bound, recomputed, recorded_all};
use crate::reflow::cage::{signal_due, signalled, written};
use crate::reflow::{recorded, HolderView, NodeView, RuntimeView};
use crate::reflow::runtime::Runtime;
use crate::reflow::scheduler::{
    affected, joined, lemma_joined, pass_made, passes_made, patched_list, run_made, stripped, turn_of, turned,
    Turn, MAX_PASSES,
};
use crate::scope::View as TreeView;
use crate::widget::{unsubscribed, Widget};
use crate::widgets::each::{reconciled, remaining};
use crate::view::ViewKey;
use vstd::prelude::*;

verus! {

/// A write to a cage raises the sum of the versions of any list of distinct
/// cages by one where the list names the cage, and leaves it as it is where
/// the list does not.
pub proof fn law_write_raises_sum<T>(rt: RuntimeView<T>, cage: u64, value: T, ids: Seq<u64>)
    requires
        rt.has_node(cage),
        rt.cages(ids),
    ensures
        written(rt, cage, value).dep_sum(ids) == rt.dep_sum(ids) + if ids.contains(cage) {
            1nat
        } else {
            0nat
        },
    decreases ids.len(),
{
    if ids.len() > 0 {
        let rest = ids.drop_last();
        assert forall|i: int| 0 <= i < rest.len() implies rt.is_cage(#[trigger] rest[i]) by {
            assert(rest[i] == ids[i]);
        }
        assert(rest.no_duplicates()) by {
            assert forall|i: int, j: int| 0 <= i < rest.len() && 0 <= j < rest.len() && i != j implies rest[i]
                != rest[j] by {
                assert(rest[i] == ids[i] && rest[j] == ids[j]);
            }
        }
        law_write_raises_sum(rt, cage, value, rest);
        assert(rt.is_cage(ids[ids.len() - 1]));
        if ids.last() == cage {
            if rest.contains(cage) {
                let i = choose|i: int| 0 <= i < rest.len() && rest[i] == cage;
                assert(ids[i] == ids[ids.len() - 1]);
            }
            assert(ids.contains(cage)) by {
                assert(ids[ids.len() - 1] == cage);
            }
        } else {
            if rest.contains(cage) {
                let i = choose|i: int| 0 <= i < rest.len() && rest[i] == cage;
                assert(ids[i] == cage);
            }
            if ids.contains(cage) {
                let i = choose|i: int| 0 <= i < ids.len() && ids[i] == cage;
                assert(rest[i] == cage);
            }
        }
    }
}

/// Subscribing views to cages changes neither the value nor the version nor
/// the dependencies of any node.
pub proof fn law_binding_keeps_values<T>(pre: RuntimeView<T>, ids: Seq<u64>, views: Seq<ViewKey>, id: u64)
    requires
        pre.has_node(id),
    ensures
        all_bound(pre, ids, views).nodes.len() == pre.nodes.len(),
        all_bound(pre, ids, views).node(id).value == pre.node(id).value,
        all_bound(pre, ids, views).node(id).version == pre.node(id).version,
        all_bound(pre, ids, views).node(id).gathers == pre.node(id).gathers,
        all_bound(pre, ids, views).node(id).is_bond == pre.node(id).is_bond,
        all_bound(pre, ids, views).holders == pre.holders,
        all_bound(pre, ids, views).layers == pre.layers,
    decreases views.len(),
{
    if views.len() > 0 {
        law_binding_keeps_values(pre, ids, views.drop_last(), id);
    }
}

/// A bond follows its cage. Take a bond whose value is current and that
/// depends on one cage alone. After a write to the cage the bond is stale, so
/// the next read evaluates it again; and once it has taken in what the
/// evaluation gave, it holds that value and its version is the version that
/// the cage has after the write.
///
/// `mid` is the runtime as the evaluation left it, `out` what it gave.
pub proof fn law_bond_follows_cage<T>(
    pre: RuntimeView<T>,
    bond: u64,
    cage: u64,
    value: T,
    mid: RuntimeView<T>,
    out: T,
)
    requires
        pre.wf(),
        pre.is_bond(bond),
        pre.is_cage(cage),
        pre.node(bond).gathers == seq![cage],
        pre.is_current(bond),
        mid.has_node(bond),
    ensures
        ({
            let wrote = signalled(written(pre, cage, value), cage);
            let stamp = wrote.dep_sum(wrote.node(bond).gathers);
            &&& wrote.node(cage).value == value
            &&& wrote.node(cage).version == pre.node(cage).version + 1
            &&& !wrote.is_current(bond)
            &&& recomputed(mid, bond, out, stamp).node(bond).value == out
            &&& recomputed(mid, bond, out, stamp).node(bond).version == wrote.node(cage).version
        }),
{
    let gathers = seq![cage];
    assert(pre.node_ok(pre.nodes[bond - 1]));
    assert(gathers.contains(cage)) by {
        assert(gathers[0] == cage);
    }
    law_write_raises_sum(pre, cage, value, gathers);
    let wrote = signalled(written(pre, cage, value), cage);
    assert(wrote.nodes == written(pre, cage, value).nodes);
    law_sum_of_nodes(written(pre, cage, value), wrote, gathers);
    assert(gathers.drop_last() =~= Seq::<u64>::empty());
    assert(wrote.dep_sum(gathers) == wrote.dep_sum(gathers.drop_last()) + wrote.node(
        gathers.last(),
    ).version);
    let stamp = wrote.dep_sum(wrote.node(bond).gathers);
    let closed = mid.with_layers(mid.layers.drop_last());
    let stored = closed.with_node(
        bond,
        NodeView { value: out, version: stamp, gathers: mid.layers.last(), ..closed.node(bond) },
    );
    law_binding_keeps_values(
        stored,
        mid.layers.last(),
        views_of(stored.node(bond).bindings),
        bond,
    );
}

/// The sum of versions looks at the nodes only.
pub proof fn law_sum_of_nodes<T>(a: RuntimeView<T>, b: RuntimeView<T>, ids: Seq<u64>)
    requires
        a.nodes == b.nodes,
    ensures
        a.dep_sum(ids) == b.dep_sum(ids),
    decreases ids.len(),
{
    if ids.len() > 0 {
        law_sum_of_nodes(a, b, ids.drop_last());
    }
}

/// Outside any capture a read is recorded nowhere: with no frame open, reading
/// a cage or a current bond leaves the runtime exactly as it was, so the same
/// read gives the same value again without any evaluation.
pub proof fn law_idle_read_changes_nothing<T>(rt: RuntimeView<T>, id: u64, ids: Seq<u64>)
    requires
        rt.layers.len() == 0,
    ensures
        rt.with_layers(recorded(rt.layers, id)) == rt,
        rt.with_layers(recorded_all(rt.layers, ids)) == rt,
{
    assert(recorded(rt.layers, id) =~= rt.layers);
    crate::reflow::bond::lemma_recorded_all_idle(rt.layers, ids);
}

/// Recording a read leaves every value, version and dependency as it is: a
/// bond that is current stays current however often a current value is read.
pub proof fn law_read_keeps_current<T>(rt: RuntimeView<T>, bond: u64, ids: Seq<u64>)
    requires
        rt.is_current(bond),
    ensures
        rt.with_layers(recorded_all(rt.layers, ids)).is_current(bond),
{
    law_sum_of_nodes(rt, rt.with_layers(recorded_all(rt.layers, ids)), rt.node(bond).gathers);
}

/// Writes coalesce. While the scheduler is in no pass for a cage's holder, the
/// first change signal puts the cage in the holder's pass; a second signal
/// changes nothing and asks for no pass.
pub proof fn law_second_signal_is_idle<T>(pre: RuntimeView<T>, cage: u64)
    requires
        pre.owner(cage).is_some(),
        !pre.holder(pre.owner(cage).unwrap()).running,
        !pre.holder(pre.owner(cage).unwrap()).untracking,
    ensures
        signalled(pre, cage).holder(pre.owner(cage).unwrap()).revising.contains(cage),
        signalled(signalled(pre, cage), cage) == signalled(pre, cage),
        !signal_due(signalled(pre, cage), cage),
{
    let h = pre.owner(cage).unwrap();
    let hv = pre.holder(h);
    let once = signalled(pre, cage);
    if hv.revising.contains(cage) {
    } else {
        assert(hv.revising.push(cage)[hv.revising.len() as int] == cage);
    }
    assert(once.holder(h).revising.contains(cage));
    assert(once.holders.insert(h, once.holder(h)) =~= once.holders);
}

/// A write does not touch the queues; the signal that follows it touches those
/// of the cage's holder only. The flags of every holder, the queues of every
/// other holder, the nodes and the capture frames stay as they are.
pub proof fn law_signal_stays_with_its_holder<T>(pre: RuntimeView<T>, cage: u64, other: u64)
    requires
        pre.owner(cage) != Some(other),
    ensures
        signalled(pre, cage).holder(other) == pre.holder(other),
        signalled(pre, cage).nodes == pre.nodes,
        signalled(pre, cage).layers == pre.layers,
        forall|h: u64|
            (#[trigger] signalled(pre, cage).holder(h)).running == pre.holder(h).running
                && signalled(pre, cage).holder(h).batching == pre.holder(h).batching && signalled(
                pre,
                cage,
            ).holder(h).untracking == pre.holder(h).untracking,
{
}

/// The end of a pass touches the queues of its own holder only.
pub proof fn law_turn_stays_with_its_holder<T>(pre: RuntimeView<T>, h: u64, passes: nat, other: u64)
    requires
        other != h,
    ensures
        pre.with_holder(h, turned(pre.holder(h), passes)).holder(other) == pre.holder(other),
        turned(pre.holder(h), passes).running == pre.holder(h).running,
        turned(pre.holder(h), passes).batching == pre.holder(h).batching,
        turned(pre.holder(h), passes).untracking == pre.holder(h).untracking,
{
}

/// A run ends. A pass that ends with nothing waiting ends the run, and so does
/// the ninth pass whatever waits; only the first eight can ask for another.
pub proof fn law_ninth_pass_is_the_last(hv: HolderView, passes: nat)
    ensures
        passes >= MAX_PASSES ==> turn_of(hv, passes) != Turn::Again,
        hv.pending.len() == 0 ==> turn_of(hv, passes) == Turn::Quiescent,
        turned(hv, passes).pending.len() == 0,
        turn_of(hv, passes) == Turn::Quiescent ==> turned(hv, passes).revising.len() == 0,
{
}

/// Bindings are counted. A view that binds a node twice holds two bindings;
/// giving one up leaves it a subscriber with one, and only giving up the
/// second takes it out. The bindings of every other view stay as they are.
pub proof fn law_bindings_are_counted(s: Seq<BindingView>, v: ViewKey, other: ViewKey)
    requires
        distinct(s),
        !has_view(s, v),
        other != v,
    ensures
        ({
            let twice = with_binding(with_binding(s, v), v);
            let once = loosened(twice, v, 1);
            &&& count_of(twice, v) == 2
            &&& has_view(once, v) && count_of(once, v) == 1
            &&& !has_view(loosened(once, v, 1), v)
            &&& count_of(twice, other) == count_of(s, other)
            &&& count_of(once, other) == count_of(s, other)
            &&& count_of(loosened(once, v, 1), other) == count_of(s, other)
        }),
{
    let one = with_binding(s, v);
    let n = s.len() as int;
    assert(one[n].view == v);
    assert forall|i: int, j: int| 0 <= i < j < one.len() implies (#[trigger] one[i]).view != (
    #[trigger] one[j]).view by {
        if j < n {
        } else {
            assert(s[i].view != v);
        }
    }
    lemma_index_of_view(one, v, n);
    let twice = with_binding(one, v);
    assert(twice == one.update(n, BindingView { view: v, count: 2 }));
    assert forall|i: int, j: int| 0 <= i < j < twice.len() implies (#[trigger] twice[i]).view != (
    #[trigger] twice[j]).view by {
        assert(one[i].view != one[j].view);
    }
    lemma_index_of_view(twice, v, n);
    let once = loosened(twice, v, 1);
    assert(once == twice.update(n, BindingView { view: v, count: 1 }));
    assert forall|i: int, j: int| 0 <= i < j < once.len() implies (#[trigger] once[i]).view != (
    #[trigger] once[j]).view by {
        assert(twice[i].view != twice[j].view);
    }
    lemma_index_of_view(once, v, n);
    lemma_without_view(once, v);
    assert(loosened(once, v, 1) == without_view(once, v));
    if has_view(s, other) {
        let k = crate::reflow::bindings::index_of_view(s, other);
        lemma_index_of_view(s, other, k);
        assert(one[k] == s[k]);
        lemma_index_of_view(one, other, k);
        assert(twice[k] == s[k]);
        lemma_index_of_view(twice, other, k);
        assert(once[k] == s[k]);
        lemma_index_of_view(once, other, k);
    } else {
        assert forall|t: Seq<BindingView>|
            (t == one || t == twice || t == once) implies !has_view(t, other) by {
            if has_view(t, other) {
                let k = crate::reflow::bindings::index_of_view(t, other);
                if k < n {
                    assert(s[k].view == other);
                }
            }
        }
    }
}

/// A view that has unbound is no subscriber any more.
pub proof fn law_unbound_view_is_gone(s: Seq<BindingView>, v: ViewKey)
    requires
        crate::reflow::bindings::distinct(s),
    ensures
        !has_view(without_view(s, v), v),
        !views_of(without_view(s, v)).contains(v),
{
    crate::reflow::bindings::lemma_without_view(s, v);
    let out = without_view(s, v);
    if views_of(out).contains(v) {
        let i = choose|i: int| 0 <= i < views_of(out).len() && views_of(out)[i] == v;
        assert(out[i].view == v);
    }
}

/// Joining lists adds only what one of them holds.
pub proof fn law_joined_holds_only_given(acc: Seq<ViewKey>, more: Seq<ViewKey>, v: ViewKey)
    requires
        !acc.contains(v),
        !more.contains(v),
    ensures
        !joined(acc, more).contains(v),
    decreases more.len(),
{
    if more.len() > 0 {
        let rest = more.drop_last();
        if rest.contains(v) {
            let i = choose|i: int| 0 <= i < rest.len() && rest[i] == v;
            assert(more[i] == v);
        }
        law_joined_holds_only_given(acc, rest, v);
        let a = joined(acc, rest);
        assert(more.last() == more[more.len() - 1]);
        if !a.contains(more.last()) {
            let out = a.push(more.last());
            if out.contains(v) {
                let i = choose|i: int| 0 <= i < out.len() && out[i] == v;
                if i < a.len() {
                    assert(a[i] == v);
                }
            }
        }
    }
}

/// A pass re-renders subscribers only: a view that is subscribed to none of
/// the nodes of a pass is not among the views that the pass re-renders.
pub proof fn law_only_subscribers_are_affected<T>(rt: RuntimeView<T>, ids: Seq<u64>, v: ViewKey)
    requires
        forall|i: int| 0 <= i < ids.len() ==> !has_view(rt.node(#[trigger] ids[i]).bindings, v),
    ensures
        !affected(rt, ids).contains(v),
    decreases ids.len(),
{
    if ids.len() > 0 {
        let rest = ids.drop_last();
        assert forall|i: int| 0 <= i < rest.len() implies !has_view(
            rt.node(#[trigger] rest[i]).bindings,
            v,
        ) by {
            assert(rest[i] == ids[i]);
        }
        law_only_subscribers_are_affected(rt, rest, v);
        let b = rt.node(ids.last()).bindings;
        assert(ids.last() == ids[ids.len() - 1]);
        if views_of(b).contains(v) {
            let i = choose|i: int| 0 <= i < views_of(b).len() && views_of(b)[i] == v;
            assert(b[i].view == v);
        }
        law_joined_holds_only_given(affected(rt, rest), views_of(b), v);
    } else {
        assert(!Seq::<ViewKey>::empty().contains(v));
    }
}

/// A pass renders a view once, however many of its nodes the view is
/// subscribed to and however many bindings it holds: the views that a pass
/// re-renders are a list without repeats.
pub proof fn law_a_pass_names_each_view_once<T>(rt: RuntimeView<T>, ids: Seq<u64>)
    ensures
        affected(rt, ids).no_duplicates(),
    decreases ids.len(),
{
    if ids.len() > 0 {
        law_a_pass_names_each_view_once(rt, ids.drop_last());
        lemma_joined(affected(rt, ids.drop_last()), views_of(rt.node(ids.last()).bindings));
    }
}

/// A view that has been detached is not rendered again: a view that is a
/// subscriber of no node is not among the views that a pass over nodes of the
/// runtime re-renders.
pub proof fn law_detached_view_is_left_alone<T>(rt: RuntimeView<T>, ids: Seq<u64>, v: ViewKey)
    requires
        unsubscribed(rt, v),
        forall|i: int| 0 <= i < ids.len() ==> rt.has_node(#[trigger] ids[i]),
    ensures
        !affected(rt, ids).contains(v),
{
    law_only_subscribers_are_affected(rt, ids, v);
}

/// A pass with nothing to do changes nothing but the queues. Where no view is
/// subscribed to a node of the pass and nothing waits, the pass patches no
/// view, forgets none, and ends the run with both queues empty.
pub proof fn law_quiet_pass<T, W: Widget<T>>(
    vs0: Seq<TreeView<W>>,
    r0: Runtime<T>,
    h: u64,
    passes: nat,
    vs1: Seq<TreeView<W>>,
    r1: Runtime<T>,
    turn: Turn,
)
    requires
        pass_made(vs0, r0, h, passes, vs1, r1, turn),
        affected(r0@, r0@.holder(h).revising).len() == 0,
        r0@.holder(h).pending.len() == 0,
    ensures
        turn == Turn::Quiescent,
        vs1 == vs0,
        r1@ == r0@.with_holder(
            h,
            HolderView { revising: Seq::empty(), pending: Seq::empty(), ..r0@.holder(h) },
        ),
{
    let list = affected(r0@, r0@.holder(h).revising);
    let (ra, missing) = choose|ra: Runtime<T>, missing: Seq<ViewKey>| #[trigger]
        patched_list(vs0, r0, list, h, vs1, ra, missing) && turn == turn_of(
            stripped(ra@, h, missing).holder(h),
            passes,
        ) && r1@ == stripped(ra@, h, missing).with_holder(
            h,
            turned(stripped(ra@, h, missing).holder(h), passes),
        );
    assert(ra == r0 && missing == Seq::<ViewKey>::empty());
    assert(stripped(r0@, h, missing) == r0@);
}

/// A run that starts with nothing to do makes no second pass.
pub proof fn law_no_second_pass<T, W: Widget<T>>(
    vs0: Seq<TreeView<W>>,
    r0: Runtime<T>,
    h: u64,
    n: nat,
    vs1: Seq<TreeView<W>>,
    r1: Runtime<T>,
)
    requires
        passes_made(vs0, r0, h, n, vs1, r1),
        affected(r0@, r0@.holder(h).revising).len() == 0,
        r0@.holder(h).pending.len() == 0,
    ensures
        n == 0,
    decreases n,
{
    if n > 0 {
        let (vm, rm) = choose|vm: Seq<TreeView<W>>, rm: Runtime<T>|
            passes_made(vs0, r0, h, (n - 1) as nat, vm, rm) && #[trigger] pass_made(
                vm,
                rm,
                h,
                n,
                vs1,
                r1,
                Turn::Again,
            );
        law_no_second_pass(vs0, r0, h, (n - 1) as nat, vm, rm);
        law_quiet_pass(vm, rm, h, n, vs1, r1, Turn::Again);
    }
}

/// A run with nothing to do. Where no view is subscribed to a node of the
/// holder's pass and nothing waits for the holder, a run makes one pass, is not
/// cut short, leaves every view as it is, and leaves the runtime as it was but
/// for the holder's queues, which are empty, and its two marks, which are off.
pub proof fn law_quiet_run<T, W: Widget<T>>(
    vs0: Seq<TreeView<W>>,
    r0: Runtime<T>,
    h: u64,
    vs1: Seq<TreeView<W>>,
    r1: Runtime<T>,
    passes: nat,
    truncated: bool,
)
    requires
        run_made(vs0, r0, h, vs1, r1, passes, truncated),
        affected(r0@, r0@.holder(h).revising).len() == 0,
        r0@.holder(h).pending.len() == 0,
    ensures
        passes == 1,
        !truncated,
        vs1 == vs0,
        r1@ == r0@.with_holder(
            h,
            HolderView {
                running: false,
                revising: Seq::empty(),
                pending: Seq::empty(),
                cut_short: false,
                ..r0@.holder(h)
            },
        ),
{
    let (ra, before, vm, rm, rb, turn) = choose|
        ra: Runtime<T>,
        before: nat,
        vm: Seq<TreeView<W>>,
        rm: Runtime<T>,
        rb: Runtime<T>,
        turn: Turn,
    |
        ra@ == r0@.with_holder(h, HolderView { running: true, ..r0@.holder(h) }) && before + 1
            == passes && #[trigger] passes_made(vs0, ra, h, before, vm, rm) && #[trigger] pass_made(
            vm,
            rm,
            h,
            passes,
            vs1,
            rb,
            turn,
        ) && turn != Turn::Again && truncated == (turn == Turn::Truncated) && r1@
            == rb@.with_holder(
            h,
            HolderView { running: false, cut_short: truncated, ..rb@.holder(h) },
        );
    law_affected_of_nodes(r0@, ra@, r0@.holder(h).revising);
    law_no_second_pass(vs0, ra, h, before, vm, rm);
    law_quiet_pass(vm, rm, h, passes, vs1, rb, turn);
    assert(r1@.holders =~= r0@.with_holder(
        h,
        HolderView {
            running: false,
            revising: Seq::empty(),
            pending: Seq::empty(),
            cut_short: false,
            ..r0@.holder(h)
        },
    ).holders);
}

/// The views that a pass re-renders depend on the nodes only.
pub proof fn law_affected_of_nodes<T>(a: RuntimeView<T>, b: RuntimeView<T>, ids: Seq<u64>)
    requires
        a.nodes == b.nodes,
    ensures
        affected(a, ids) == affected(b, ids),
    decreases ids.len(),
{
    if ids.len() > 0 {
        law_affected_of_nodes(a, b, ids.drop_last());
    }
}

/// Taking the entry under a key out of entries with distinct keys leaves the
/// keys distinct, and leaves exactly the entries under the other keys.
pub proof fn law_entry_taken_out(items: Seq<(u64, ViewKey)>, key: u64, e: (u64, ViewKey))
    requires
        keys_distinct(items),
    ensures
        keys_distinct(without_entry(items, key)),
        without_entry(items, key).contains(e) <==> items.contains(e) && e.0 != key,
{
    let out = without_entry(items, key);
    if has_key(items, key) {
        let at = key_place(items, key);
        let last = items.len() - 1;
        assert forall|i: int, j: int| 0 <= i < j < out.len() implies (#[trigger] out[i]).0 != (
        #[trigger] out[j]).0 by {
            let si = if i == at { last } else { i };
            let sj = if j == at { last } else { j };
            assert(out[i] == items[si] && out[j] == items[sj]);
            if si < sj {
                assert(items[si].0 != items[sj].0);
            } else {
                assert(items[sj].0 != items[si].0);
            }
        }
        if out.contains(e) {
            let i = choose|i: int| 0 <= i < out.len() && out[i] == e;
            let si = if i == at { last } else { i };
            assert(out[i] == items[si]);
            assert(items.contains(e));
            if si < at {
                assert(items[si].0 != items[at].0);
            } else {
                assert(items[at].0 != items[si].0);
            }
        }
        if items.contains(e) && e.0 != key {
            let i = choose|i: int| 0 <= i < items.len() && items[i] == e;
            if i == last {
                assert(out[at] == e);
            } else {
                assert(out[i] == e);
            }
        }
    } else {
        if items.contains(e) {
            let i = choose|i: int| 0 <= i < items.len() && items[i] == e;
            assert(items[i].0 == e.0);
        }
    }
}

/// The views that leave a list are those of the keys that are gone: when the
/// items with keys `keys` have taken their views, what is left of the entries
/// `items` are exactly the entries whose key is none of `keys`.
pub proof fn law_dropped_keys_are_left(items: Seq<(u64, ViewKey)>, keys: Seq<u64>, e: (u64, ViewKey))
    requires
        keys_distinct(items),
    ensures
        keys_distinct(remaining(items, keys)),
        remaining(items, keys).contains(e) <==> items.contains(e) && !keys.contains(e.0),
    decreases keys.len(),
{
    if keys.len() > 0 {
        let rest = keys.drop_last();
        law_dropped_keys_are_left(items, rest, e);
        law_entry_taken_out(remaining(items, rest), keys.last(), e);
        if keys.contains(e.0) && e.0 != keys.last() {
            let i = choose|i: int| 0 <= i < keys.len() && keys[i] == e.0;
            assert(rest[i] == e.0);
        }
        if rest.contains(e.0) {
            let i = choose|i: int| 0 <= i < rest.len() && rest[i] == e.0;
            assert(keys[i] == e.0);
        }
        assert(keys[keys.len() - 1] == keys.last());
    } else {
        assert(!keys.contains(e.0));
    }
}

/// An item that stays keeps its view: where the keys `keys` of the new items
/// are distinct and `items` holds the view `e.1` under one of them, the list
/// holds that view under that key afterwards.
pub proof fn law_kept_keys_keep_their_views(
    items: Seq<(u64, ViewKey)>,
    keys: Seq<u64>,
    holder: u64,
    raw: Seq<char>,
    next: u64,
    e: (u64, ViewKey),
)
    requires
        keys_distinct(items),
        keys.no_duplicates(),
        items.contains(e),
        keys.contains(e.0),
    ensures
        reconciled(Seq::empty(), items, keys, holder, raw, next).0.contains(e),
    decreases keys.len(),
{
    let rest = keys.drop_last();
    let before = reconciled(Seq::empty(), items, rest, holder, raw, next).0;
    let left = remaining(items, rest);
    let key = keys.last();
    let out = reconciled(Seq::empty(), items, keys, holder, raw, next).0;
    assert(keys.len() > 0) by {
        let i = choose|i: int| 0 <= i < keys.len() && keys[i] == e.0;
    }
    assert(rest.no_duplicates()) by {
        assert forall|i: int, j: int| 0 <= i < rest.len() && 0 <= j < rest.len() && i != j implies rest[i]
            != rest[j] by {
            assert(keys[i] != keys[j]);
        }
    }
    let given = if has_key(left, key) {
        left[key_place(left, key)].1
    } else {
        ViewKey { holder, raw: crate::scope::child_path(raw, reconciled(Seq::empty(), items, rest, holder, raw, next).1) }
    };
    assert(out == with_entry(before, key, given));
    if e.0 == key {
        assert(!rest.contains(key)) by {
            if rest.contains(key) {
                let i = choose|i: int| 0 <= i < rest.len() && rest[i] == key;
                assert(keys[i] == keys[keys.len() - 1]);
            }
        }
        law_dropped_keys_are_left(items, rest, e);
        let at = choose|i: int| 0 <= i < left.len() && left[i] == e;
        lemma_key_place(left, key, at);
        assert(given == e.1);
        if has_key(before, key) {
            assert(out[key_place(before, key)] == e);
        } else {
            assert(out[before.len() as int] == e);
        }
    } else {
        assert(rest.contains(e.0)) by {
            let i = choose|i: int| 0 <= i < keys.len() && keys[i] == e.0;
            assert(rest[i] == e.0);
        }
        law_kept_keys_keep_their_views(items, rest, holder, raw, next, e);
        let i = choose|i: int| 0 <= i < before.len() && before[i] == e;
        if has_key(before, key) {
            assert(before[key_place(before, key)].0 == key);
            assert(out[i] == e);
        } else {
            assert(out[i] == e);
        }
    }
}

} // verus!
