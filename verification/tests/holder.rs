use glory::holder::{Enabler, Holder, HolderId};
use glory::node::Node;
use glory::reflow::{Cage, IdSource};
use glory::reflow::runtime::Runtime;
use glory::reflow::scheduler::is_running;
use glory::scope::Scope;
use glory::truck::Truck;
use glory::widget::{detach_children, flood, Widget};

struct Dial {
    cage: Cage,
    patches: usize,
}

impl Widget<u8> for Dial {
    fn attach(&mut self, _ctx: &mut Scope<Dial>, _rt: &mut Runtime<u8>) {}

    fn build(&mut self, ctx: &mut Scope<Dial>, rt: &mut Runtime<u8>) {
        self.cage.bind_view(rt, ctx.view_id());
    }

    fn flood(&mut self, ctx: &mut Scope<Dial>, rt: &mut Runtime<u8>) {
        flood(ctx, rt);
    }

    fn patch(&mut self, _ctx: &mut Scope<Dial>, _rt: &mut Runtime<u8>) {
        self.patches += 1;
    }

    fn detach(&mut self, ctx: &mut Scope<Dial>, rt: &mut Runtime<u8>) {
        self.cage.unbind_view(rt, ctx.view_id());
        detach_children(ctx, rt);
    }
}

struct Named(&'static str);

impl Enabler for Named {
    fn enable(self, truck: &mut Truck) {
        truck.insert("name", self.0);
    }
}

#[test]
fn a_holder_numbers_its_root_views() {
    let mut rt = Runtime::new();
    let mut ids = IdSource::new();
    let mut holder: Holder<Dial> = Holder::new(&mut ids);
    let other: Holder<Dial> = Holder::new(&mut ids);
    assert_eq!((holder.id(), other.id()), (HolderId(1), HolderId(2)));
    let a = Cage::new(&mut rt, 0);
    let b = Cage::new(&mut rt, 0);
    let first = holder.mount(Dial { cage: a, patches: 0 }, Node(1), &mut rt);
    let second = holder.mount(Dial { cage: b, patches: 0 }, Node(1), &mut rt);
    assert_eq!((first.as_str(), second.as_str()), ("0", "1"));
    assert_eq!(first.holder_id(), HolderId(1));
    assert_eq!(holder.views().0.len(), 2);
    assert!(holder.views().0.iter().all(|v| v.is_attached() && v.is_built()));
    assert!(a.view_ids(&rt) == vec![first]);
}

#[test]
fn a_holder_patches_its_own_views() {
    let mut rt = Runtime::new();
    let mut ids = IdSource::new();
    let mut holder: Holder<Dial> = Holder::new(&mut ids);
    let cage = Cage::new(&mut rt, 0);
    let id = holder.mount(Dial { cage, patches: 0 }, Node(1), &mut rt);
    let out = holder.revise(cage, &mut rt, |v| {
        *v += 1;
        *v
    });
    assert_eq!(out, 1);
    assert_eq!(holder.views().get(&id).unwrap().widget.patches, 1);
    rt.set_batching(holder.id(), true);
    holder.revise(cage, &mut rt, |v| *v += 1);
    assert_eq!(holder.views().get(&id).unwrap().widget.patches, 1);
    rt.set_batching(holder.id(), false);
    holder.schedule(&mut rt);
    assert_eq!(holder.views().get(&id).unwrap().widget.patches, 2);
}

#[test]
fn a_closed_holder_leaves_nothing_behind() {
    let mut rt = Runtime::new();
    let mut ids = IdSource::new();
    let mut holder: Holder<Dial> = Holder::new(&mut ids);
    let id = holder.id();
    let cage = Cage::new(&mut rt, 0);
    holder.mount(Dial { cage, patches: 0 }, Node(1), &mut rt);
    rt.set_running(id, true);
    rt.set_untracking(id, true);
    rt.set_batching(id, true);
    rt.mark_revising(id, cage.id());
    rt.mark_pending(id, cage.id());
    rt.set_running(HolderId(9), true);
    holder.close(&mut rt);
    assert!(!is_running(&rt, id) && !rt.batching(id) && !rt.untracking(id));
    assert_eq!((rt.revising_len(id), rt.pending_len(id)), (0, 0));
    assert!(is_running(&rt, HolderId(9)));
    assert_eq!(cage.get_untracked(&rt), &0);
}

#[test]
fn a_holder_lets_an_enabler_fill_its_truck() {
    let mut ids = IdSource::new();
    let mut holder: Holder<Dial> = Holder::new(&mut ids);
    holder.enable(Named("glory"));
    assert_eq!(holder.truck().get::<&str>("name").unwrap(), &"glory");
    assert_eq!(holder.truck().len(), 1);
}
