use glory::holder::HolderId;
use glory::node::Node;
use glory::reflow::{batch, gather, schedule, untrack, Bond, Cage, TrackingStack};
use glory::reflow::runtime::Runtime;
use glory::reflow::scheduler::{
    enter_batch, is_batching, is_running, is_untracking, leave_batch, revising_view_ids, run,
    strip_views, turn_over, Turn,
};
use glory::scope::Scope;
use glory::view::ViewId;
use glory::view_map::ViewMap;
use glory::widget::{flood, mount_to, Widget};

type Mapper = Box<dyn Fn(&mut Runtime<Val>) -> Val>;

#[derive(Clone, Debug, PartialEq)]
enum Val {
    Int(i64),
    Text(String),
}

fn num(v: &Val) -> i64 {
    match v {
        Val::Int(n) => *n,
        Val::Text(_) => panic!("not a number"),
    }
}

fn add(v: &mut Val, by: i64) {
    *v = Val::Int(num(v) + by);
}

/// A widget that binds a cage or a bond when it is built and counts its patches.
struct Probe {
    cage: Option<Cage>,
    bond: Option<Bond<Val, Mapper>>,
    patches: usize,
    rewrite: bool,
    /// Whether the `detach` hook leaves the bindings alone.
    clingy: bool,
    seen: Vec<Val>,
}

impl Probe {
    fn on_cage(cage: Cage) -> Probe {
        Probe { cage: Some(cage), bond: None, patches: 0, rewrite: false, clingy: false, seen: Vec::new() }
    }

    fn on_bond(bond: Bond<Val, Mapper>) -> Probe {
        Probe { cage: None, bond: Some(bond), patches: 0, rewrite: false, clingy: false, seen: Vec::new() }
    }
}

impl Widget<Val> for Probe {
    fn attach(&mut self, _ctx: &mut Scope<Probe>, _rt: &mut Runtime<Val>) {}

    fn build(&mut self, ctx: &mut Scope<Probe>, rt: &mut Runtime<Val>) {
        if let Some(cage) = self.cage {
            cage.bind_view(rt, ctx.view_id());
        }
        if let Some(bond) = &self.bond {
            bond.bind_view(rt, ctx.view_id());
        }
    }

    fn flood(&mut self, ctx: &mut Scope<Probe>, rt: &mut Runtime<Val>) {
        flood(ctx, rt);
    }

    fn patch(&mut self, _ctx: &mut Scope<Probe>, rt: &mut Runtime<Val>) {
        self.patches += 1;
        if let Some(cage) = self.cage {
            self.seen.push(cage.get_untracked(rt).clone());
            if self.rewrite {
                cage.revise_silent(rt, |v| add(v, 1));
                cage.signal(rt);
            }
        }
        if let Some(bond) = &self.bond {
            self.seen.push(bond.get(rt).clone());
        }
    }

    fn detach(&mut self, ctx: &mut Scope<Probe>, rt: &mut Runtime<Val>) {
        if self.clingy {
            return;
        }
        if let Some(cage) = self.cage {
            cage.unbind_view(rt, ctx.view_id());
        }
        if let Some(bond) = &self.bond {
            bond.unbind_view(rt, ctx.view_id());
        }
    }
}

fn root(holder: u64, raw: &str) -> Scope<Probe> {
    Scope::new_root(ViewId::new(HolderId(holder), raw.to_owned()))
}

fn patches(views: &ViewMap<Probe>, id: &ViewId) -> usize {
    views.get(id).unwrap().widget.patches
}

#[test]
fn a_new_cage_is_at_version_one_with_no_subscriber() {
    let mut rt = Runtime::new();
    let c = Cage::new(&mut rt, Val::Int(5));
    assert_eq!(c.id().value(), 1);
    assert_eq!(c.version(&rt), 1);
    assert_eq!(c.get_untracked(&rt), &Val::Int(5));
    assert_eq!(c.borrow(&rt), &Val::Int(5));
    assert!(c.view_ids(&rt).is_empty());
    assert_eq!(c.holder_id(&rt), None);
    assert!(!c.is_revising(&rt));
    let d = Cage::new(&mut rt, Val::Int(6));
    assert_eq!(d.id().value(), 2);
    assert_eq!(rt.node_count(), 2);
}

#[test]
fn revise_silent_writes_and_raises_the_version_by_one() {
    let mut rt = Runtime::new();
    let c = Cage::new(&mut rt, Val::Int(5));
    let out = c.revise_silent(&mut rt, |v| {
        add(v, 2);
        "done"
    });
    assert_eq!(out, "done");
    assert_eq!(c.get_untracked(&rt), &Val::Int(7));
    assert_eq!(c.version(&rt), 2);
    c.revise_silent(&mut rt, |v| add(v, 1));
    assert_eq!(c.version(&rt), 3);
}

#[test]
fn a_signal_without_a_subscriber_queues_nothing() {
    let mut rt = Runtime::new();
    let c = Cage::new(&mut rt, Val::Int(0));
    assert!(!c.signal(&mut rt));
    assert_eq!(rt.revising_len(HolderId(1)), 0);
    assert_eq!(rt.pending_len(HolderId(1)), 0);
}

#[test]
fn a_signal_joins_the_pass_once_and_waits_while_a_pass_runs() {
    let mut rt = Runtime::new();
    let h = HolderId(4);
    let c = Cage::new(&mut rt, Val::Int(0));
    c.bind_view(&mut rt, &ViewId::new(h, "0".to_owned()));
    assert_eq!(c.holder_id(&rt), Some(h));
    assert!(c.signal(&mut rt));
    assert!(!c.signal(&mut rt));
    assert_eq!(rt.revising_len(h), 1);
    assert_eq!(rt.revising_at(h, 0), Some(c.id()));
    assert_eq!(rt.revising_at(h, 1), None);
    assert!(c.is_revising(&rt));

    rt.set_running(h, true);
    assert!(!c.signal(&mut rt));
    assert_eq!(rt.pending_len(h), 1);
    assert_eq!(rt.revising_len(h), 1);
    // Other holders see none of it.
    assert_eq!(rt.revising_len(HolderId(5)), 0);
    assert_eq!(rt.pending_len(HolderId(5)), 0);
}

#[test]
fn a_signal_is_dropped_while_the_holder_untracks() {
    let mut rt = Runtime::new();
    let h = HolderId(1);
    let c = Cage::new(&mut rt, Val::Int(0));
    c.bind_view(&mut rt, &ViewId::new(h, "0".to_owned()));
    let due = untrack(&mut rt, h, |rt| {
        assert!(is_untracking(rt, h));
        c.revise_silent(rt, |v| add(v, 1));
        c.signal(rt)
    });
    assert!(!due);
    assert!(!is_untracking(&rt, h));
    assert_eq!(rt.revising_len(h), 0);
    assert_eq!(c.version(&rt), 2);
}

#[test]
fn bindings_to_a_cage_are_counted() {
    let mut rt = Runtime::new();
    let c = Cage::new(&mut rt, Val::Int(0));
    let a = ViewId::new(HolderId(1), "0".to_owned());
    let b = ViewId::new(HolderId(1), "0-1".to_owned());
    let d = ViewId::new(HolderId(1), "0-2".to_owned());
    c.bind_view(&mut rt, &a);
    c.bind_view(&mut rt, &b);
    c.bind_view(&mut rt, &a);
    c.bind_view(&mut rt, &d);
    assert!(c.view_ids(&rt) == vec![a.clone(), b.clone(), d.clone()]);
    assert_eq!(rt.bindings(c.id()).count(&a), 2);
    assert_eq!(rt.bindings(c.id()).count(&b), 1);
    // One binding given up: the view stays, with one binding.
    c.unbind_view(&mut rt, &a);
    assert!(c.view_ids(&rt) == vec![a.clone(), b.clone(), d.clone()]);
    assert_eq!(rt.bindings(c.id()).count(&a), 1);
    assert_eq!(rt.bindings(c.id()).count(&b), 1);
    // The last binding given up: the view leaves, and the last subscriber
    // takes its place.
    c.unbind_view(&mut rt, &a);
    assert!(c.view_ids(&rt) == vec![d.clone(), b.clone()]);
    c.unbind_view(&mut rt, &a);
    assert_eq!(c.view_ids(&rt).len(), 2);
    c.unlace_view(&mut rt, &b, 0);
    assert_eq!(c.view_ids(&rt).len(), 2);
    c.bind_view(&mut rt, &b);
    c.bind_view(&mut rt, &b);
    c.unlace_view(&mut rt, &b, 2);
    assert_eq!(rt.bindings(c.id()).count(&b), 1);
    c.unlace_view(&mut rt, &b, 5);
    assert!(c.view_ids(&rt) == vec![d]);
}

#[test]
fn the_tracking_stack_records_reads_in_every_open_frame() {
    let mut stack = TrackingStack::new();
    assert!(stack.is_idle());
    assert!(stack.pop_layer().is_none());
    stack.push_layer();
    stack.track(7);
    stack.push_layer();
    stack.track(9);
    stack.track(7);
    assert!(!stack.is_idle());
    let inner = stack.pop_layer().unwrap();
    assert_eq!((inner.get_index(0), inner.get_index(1), inner.get_index(2)), (Some(9), Some(7), None));
    let outer = stack.pop_layer().unwrap();
    assert_eq!((outer.len(), outer.get_index(0), outer.get_index(1)), (2, Some(7), Some(9)));
    assert!(outer.contains(9) && !outer.contains(8) && !outer.is_empty());
    assert!(stack.is_idle());
}

#[test]
fn gather_gives_what_was_read_and_untracked_reads_are_not_recorded() {
    let mut rt = Runtime::new();
    let a = Cage::new(&mut rt, Val::Int(1));
    let b = Cage::new(&mut rt, Val::Int(2));
    let c = Cage::new(&mut rt, Val::Int(4));
    let (read, sum) = gather(&mut rt, |rt| {
        let x = num(a.get(rt));
        let y = num(b.get_untracked(rt));
        let z = num(c.get(rt));
        x + y + z + num(a.get(rt))
    });
    assert_eq!(sum, 8);
    assert_eq!(read.len(), 2);
    assert_eq!((read.get_index(0), read.get_index(1)), (Some(1), Some(3)));
    assert!(rt.is_idle());
    // Outside any capture a read is recorded nowhere.
    assert_eq!(a.get(&mut rt), &Val::Int(1));
    assert!(rt.is_idle());
}

fn doubled(c: Cage) -> Mapper {
    Box::new(move |rt: &mut Runtime<Val>| Val::Int(2 * num(c.get(rt))))
}

#[test]
fn a_bond_follows_its_cage() {
    let mut rt = Runtime::new();
    let c = Cage::new(&mut rt, Val::Int(3));
    let b = Bond::new(&mut rt, doubled(c));
    assert_eq!(b.id().value(), 2);
    assert!(rt.is_bond(b.id()));
    assert_eq!(b.version(&rt), 1);
    assert_eq!(b.get(&mut rt), &Val::Int(6));
    c.revise_silent(&mut rt, |v| add(v, 4));
    assert_eq!(c.version(&rt), 2);
    assert_eq!(b.get(&mut rt), &Val::Int(14));
    assert_eq!(b.version(&rt), 2);
    assert_eq!(b.version(&rt), c.version(&rt) as u128);
}

#[test]
fn a_current_bond_is_not_computed_again() {
    let mut rt = Runtime::new();
    let c = Cage::new(&mut rt, Val::Int(3));
    let calls = std::rc::Rc::new(std::cell::Cell::new(0));
    let seen = calls.clone();
    let mapper: Mapper = Box::new(move |rt: &mut Runtime<Val>| {
        seen.set(seen.get() + 1);
        Val::Int(num(c.get(rt)) + 1)
    });
    let b = Bond::new(&mut rt, mapper);
    assert_eq!(calls.get(), 1);
    assert_eq!(b.get(&mut rt), &Val::Int(4));
    assert_eq!(b.get(&mut rt), &Val::Int(4));
    assert_eq!(b.get_untracked(&mut rt), &Val::Int(4));
    assert_eq!(calls.get(), 1);
    c.revise_silent(&mut rt, |v| add(v, 1));
    assert_eq!(b.get_untracked(&mut rt), &Val::Int(5));
    assert_eq!(b.get(&mut rt), &Val::Int(5));
    assert_eq!(calls.get(), 2);
}

#[test]
fn an_untracked_read_is_no_dependency_of_a_bond() {
    let mut rt = Runtime::new();
    let a = Cage::new(&mut rt, Val::Int(1));
    let b = Cage::new(&mut rt, Val::Int(10));
    let mapper: Mapper =
        Box::new(move |rt: &mut Runtime<Val>| Val::Int(num(a.get(rt)) + num(b.get_untracked(rt))));
    let sum = Bond::new(&mut rt, mapper);
    assert_eq!(rt.gathers(sum.id()).len(), 1);
    assert!(rt.gathers(sum.id()).contains(a.id().value()));
    b.revise_silent(&mut rt, |v| add(v, 5));
    // The bond does not know of `b`: its value stays.
    assert_eq!(sum.get(&mut rt), &Val::Int(11));
    a.revise_silent(&mut rt, |v| add(v, 1));
    assert_eq!(sum.get(&mut rt), &Val::Int(17));
}

#[test]
fn a_bond_read_inside_a_bond_hands_on_its_dependencies() {
    let mut rt = Runtime::new();
    let c = Cage::new(&mut rt, Val::Int(1));
    let inner = std::rc::Rc::new(Bond::new(&mut rt, doubled(c)));
    let held = inner.clone();
    let mapper: Mapper = Box::new(move |rt: &mut Runtime<Val>| Val::Int(num(held.get(rt)) + 1));
    let outer = Bond::new(&mut rt, mapper);
    assert!(rt.gathers(outer.id()).contains(c.id().value()));
    assert!(!rt.gathers(outer.id()).contains(inner.id().value()));
    c.revise_silent(&mut rt, |v| add(v, 1));
    assert_eq!(outer.get(&mut rt), &Val::Int(5));
    assert!(!outer.is_revising(&rt));
}

#[test]
fn a_bond_counts_bindings_and_passes_them_to_its_cages() {
    let mut rt = Runtime::new();
    let c = Cage::new(&mut rt, Val::Int(1));
    let b = Bond::new(&mut rt, doubled(c));
    let v = ViewId::new(HolderId(2), "0".to_owned());
    b.bind_view(&mut rt, &v);
    b.bind_view(&mut rt, &v);
    assert_eq!(rt.bindings(b.id()).count(&v), 2);
    assert_eq!(rt.bindings(c.id()).count(&v), 2);
    assert_eq!(b.holder_id(&rt), Some(HolderId(2)));
    assert!(b.view_ids(&rt) == vec![v.clone()]);
    // One binding given up: the bond and the cage keep the view with one.
    b.unlace_view(&mut rt, &v, 1);
    assert_eq!(rt.bindings(b.id()).count(&v), 1);
    assert_eq!(rt.bindings(c.id()).count(&v), 1);
    b.bind_view(&mut rt, &v);
    assert_eq!(rt.bindings(c.id()).count(&v), 2);
    b.unbind_view(&mut rt, &v);
    assert_eq!(rt.bindings(b.id()).count(&v), 1);
    assert!(c.view_ids(&rt) == vec![v.clone()]);
    b.unbind_view(&mut rt, &v);
    assert_eq!(rt.bindings(b.id()).count(&v), 0);
    assert!(c.view_ids(&rt).is_empty());
    // Unbinding a view that the bond does not hold changes nothing.
    c.bind_view(&mut rt, &v);
    b.unbind_view(&mut rt, &v);
    assert!(c.view_ids(&rt) == vec![v]);
}

#[test]
fn revise_runs_the_scheduler_once_and_patches_the_bound_view_once() {
    let mut rt = Runtime::new();
    let mut views = ViewMap::new();
    let counter = Cage::new(&mut rt, Val::Int(0));
    let mapper: Mapper =
        Box::new(move |rt: &mut Runtime<Val>| Val::Text(format!("Value: {}", num(counter.get(rt)))));
    let text = Bond::new(&mut rt, mapper);
    let id = mount_to(Probe::on_bond(text), root(1, "0"), Node(1), &mut views, &mut rt);
    assert_eq!(patches(&views, &id), 0);
    counter.revise(&mut rt, &mut views, |v| add(v, 1));
    let view = views.get(&id).unwrap();
    assert_eq!(view.widget.patches, 1);
    assert_eq!(view.widget.seen, vec![Val::Text("Value: 1".to_owned())]);
    let text = view.widget.bond.as_ref().unwrap();
    assert_eq!(text.get_untracked(&mut rt), &Val::Text("Value: 1".to_owned()));
    assert!(!is_running(&rt, HolderId(1)));
    assert_eq!(rt.revising_len(HolderId(1)), 0);
    assert_eq!(rt.pending_len(HolderId(1)), 0);
}

#[test]
fn a_batch_of_two_writes_patches_once() {
    let mut rt = Runtime::new();
    let mut views = ViewMap::new();
    let h = HolderId(1);
    let c = Cage::new(&mut rt, Val::Int(0));
    let id = mount_to(Probe::on_cage(c), root(1, "0"), Node(1), &mut views, &mut rt);
    let out = batch(&mut rt, &mut views, h, |rt, views| {
        assert!(is_batching(rt, h));
        c.revise(rt, views, |v| add(v, 1));
        c.revise(rt, views, |v| add(v, 1));
        assert_eq!(patches(views, &id), 0);
        7
    });
    assert_eq!(out, 7);
    assert!(!is_batching(&rt, h));
    assert_eq!(patches(&views, &id), 1);
    assert_eq!(views.get(&id).unwrap().widget.seen, vec![Val::Int(2)]);
    // Without a batch each write is a pass of its own.
    c.revise(&mut rt, &mut views, |v| add(v, 1));
    c.revise(&mut rt, &mut views, |v| add(v, 1));
    assert_eq!(patches(&views, &id), 3);
}

#[test]
fn a_detached_view_is_no_subscriber_and_is_not_patched() {
    let mut rt = Runtime::new();
    let mut views = ViewMap::new();
    let c = Cage::new(&mut rt, Val::Int(0));
    let id = mount_to(Probe::on_cage(c), root(1, "0"), Node(1), &mut views, &mut rt);
    assert!(c.view_ids(&rt) == vec![id.clone()]);
    c.revise(&mut rt, &mut views, |v| add(v, 1));
    assert_eq!(patches(&views, &id), 1);
    assert!(views.detach(&id, &mut rt));
    assert!(!views.get(&id).unwrap().is_attached());
    assert!(c.view_ids(&rt).is_empty());
    c.revise(&mut rt, &mut views, |v| add(v, 1));
    assert_eq!(patches(&views, &id), 1);
    // Detaching again changes nothing.
    assert!(views.detach(&id, &mut rt));
    assert!(!views.detach(&ViewId::new(HolderId(1), "9".to_owned()), &mut rt));
}

#[test]
fn detaching_ends_the_bindings_that_the_hook_left() {
    let mut rt = Runtime::new();
    let mut views = ViewMap::new();
    let c = Cage::new(&mut rt, Val::Int(0));
    let other = Cage::new(&mut rt, Val::Int(0));
    let mut probe = Probe::on_cage(c);
    probe.clingy = true;
    let id = mount_to(probe, root(1, "0"), Node(1), &mut views, &mut rt);
    let stays = ViewId::new(HolderId(1), "7".to_owned());
    // The view is bound a second time, and to a second cage; another view is
    // bound to the first.
    c.bind_view(&mut rt, &id);
    other.bind_view(&mut rt, &id);
    c.bind_view(&mut rt, &stays);
    assert!(c.view_ids(&rt) == vec![id.clone(), stays.clone()]);
    assert!(views.detach(&id, &mut rt));
    assert!(c.view_ids(&rt) == vec![stays.clone()]);
    assert!(other.view_ids(&rt).is_empty());
    c.revise(&mut rt, &mut views, |v| add(v, 1));
    assert_eq!(patches(&views, &id), 0);

    // The runtime forgets a view at every node, and no other view.
    rt.forget_view(&stays);
    assert!(c.view_ids(&rt).is_empty());
    rt.forget_view(&stays);
    assert!(c.view_ids(&rt).is_empty());
}

#[test]
fn a_patch_that_always_writes_is_cut_short_after_nine_passes() {
    let mut rt = Runtime::new();
    let mut views = ViewMap::new();
    let h = HolderId(1);
    let c = Cage::new(&mut rt, Val::Int(0));
    let mut probe = Probe::on_cage(c);
    probe.rewrite = true;
    let id = mount_to(probe, root(1, "0"), Node(1), &mut views, &mut rt);
    c.revise(&mut rt, &mut views, |v| add(v, 1));
    assert_eq!(patches(&views, &id), 9);
    assert!(!is_running(&rt, h));
    // The pass and what still waited are dropped, and the run is noted as cut
    // short.
    assert_eq!(rt.pending_len(h), 0);
    assert_eq!(rt.revising_len(h), 0);
    assert!(rt.cut_short(h));
    assert_eq!(c.get_untracked(&rt), &Val::Int(10));

    // Nothing is queued: a run has nothing to do.
    let report = run(&mut rt, &mut views, h);
    assert_eq!((report.passes, report.truncated), (1, false));
    assert!(!rt.cut_short(h));
    assert_eq!(patches(&views, &id), 9);

    // The next write is a first insertion again and starts a run.
    c.revise(&mut rt, &mut views, |v| add(v, 1));
    assert_eq!(patches(&views, &id), 18);
    assert!(rt.cut_short(h));
}

#[test]
fn a_quiet_run_makes_one_pass() {
    let mut rt = Runtime::new();
    let mut views: ViewMap<Probe> = ViewMap::new();
    let report = run(&mut rt, &mut views, HolderId(1));
    assert_eq!((report.passes, report.truncated), (1, false));
}

#[test]
fn holders_do_not_see_each_other() {
    let mut rt = Runtime::new();
    let mut views_a = ViewMap::new();
    let mut views_b = ViewMap::new();
    let (a, b) = (HolderId(1), HolderId(2));
    let ca = Cage::new(&mut rt, Val::Int(0));
    let cb = Cage::new(&mut rt, Val::Int(0));
    let ia = mount_to(Probe::on_cage(ca), root(1, "0"), Node(1), &mut views_a, &mut rt);
    let ib = mount_to(Probe::on_cage(cb), root(2, "0"), Node(2), &mut views_b, &mut rt);
    rt.set_running(b, true);
    ca.revise(&mut rt, &mut views_a, |v| add(v, 1));
    assert_eq!(patches(&views_a, &ia), 1);
    assert_eq!(patches(&views_b, &ib), 0);
    assert!(is_running(&rt, b));
    assert_eq!((rt.revising_len(b), rt.pending_len(b)), (0, 0));
    cb.revise(&mut rt, &mut views_b, |v| add(v, 1));
    assert_eq!((rt.revising_len(b), rt.pending_len(b)), (0, 1));
    assert_eq!((rt.revising_len(a), rt.pending_len(a)), (0, 0));
    assert_eq!(patches(&views_b, &ib), 0);

    // A view of another holder is not looked for, even in the same table.
    rt.release_holder(b);
    assert!(!is_running(&rt, b));
    assert_eq!(rt.pending_len(b), 0);
    cb.revise(&mut rt, &mut views_a, |v| add(v, 1));
    assert_eq!(patches(&views_a, &ia), 1);
}

#[test]
fn a_view_that_is_gone_is_forgotten_by_the_pass() {
    let mut rt = Runtime::new();
    let mut views: ViewMap<Probe> = ViewMap::new();
    let h = HolderId(1);
    let c = Cage::new(&mut rt, Val::Int(0));
    let gone = ViewId::new(h, "0-4".to_owned());
    let id = mount_to(Probe::on_cage(c), root(1, "0"), Node(1), &mut views, &mut rt);
    c.bind_view(&mut rt, &gone);
    c.revise(&mut rt, &mut views, |v| add(v, 1));
    assert_eq!(patches(&views, &id), 1);
    assert!(c.view_ids(&rt) == vec![id]);
}

#[test]
fn the_steps_of_a_pass() {
    let mut rt: Runtime<Val> = Runtime::new();
    let h = HolderId(1);
    let a = Cage::new(&mut rt, Val::Int(0));
    let b = Cage::new(&mut rt, Val::Int(0));
    let (v1, v2, v3) = (
        ViewId::new(h, "0".to_owned()),
        ViewId::new(h, "1".to_owned()),
        ViewId::new(h, "2".to_owned()),
    );
    a.bind_view(&mut rt, &v1);
    a.bind_view(&mut rt, &v2);
    b.bind_view(&mut rt, &v2);
    b.bind_view(&mut rt, &v3);
    assert!(a.signal(&mut rt));
    assert!(b.signal(&mut rt));
    assert!(revising_view_ids(&rt, h) == vec![v1.clone(), v2.clone(), v3.clone()]);
    strip_views(&mut rt, h, &vec![v2.clone()]);
    assert!(a.view_ids(&rt) == vec![v1.clone()]);
    assert!(b.view_ids(&rt) == vec![v3.clone()]);

    rt.mark_pending(h, b.id());
    assert_eq!(turn_over(&mut rt, h, 1), Turn::Again);
    assert_eq!((rt.revising_len(h), rt.pending_len(h)), (1, 0));
    assert_eq!(rt.revising_at(h, 0), Some(b.id()));
    rt.mark_pending(h, a.id());
    assert_eq!(turn_over(&mut rt, h, 8), Turn::Again);
    rt.mark_pending(h, b.id());
    assert_eq!(turn_over(&mut rt, h, 9), Turn::Truncated);
    assert_eq!((rt.revising_len(h), rt.pending_len(h)), (0, 0));
    rt.mark_revising(h, a.id());
    assert_eq!(turn_over(&mut rt, h, 9), Turn::Quiescent);
    assert_eq!((rt.revising_len(h), rt.pending_len(h)), (0, 0));
}

#[test]
fn schedule_waits_for_a_batch_to_close() {
    let mut rt = Runtime::new();
    let mut views = ViewMap::new();
    let h = HolderId(1);
    let c = Cage::new(&mut rt, Val::Int(0));
    let id = mount_to(Probe::on_cage(c), root(1, "0"), Node(1), &mut views, &mut rt);
    assert!(enter_batch(&mut rt, h));
    assert!(!enter_batch(&mut rt, h));
    c.revise(&mut rt, &mut views, |v| add(v, 1));
    schedule(&mut rt, &mut views, h);
    assert_eq!(patches(&views, &id), 0);
    leave_batch(&mut rt, h, false);
    assert!(is_batching(&rt, h));
    leave_batch(&mut rt, h, true);
    assert!(!is_batching(&rt, h));
    schedule(&mut rt, &mut views, h);
    assert_eq!(patches(&views, &id), 1);
}
