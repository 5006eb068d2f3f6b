use glory::holder::{enable, Enabler, HolderId};
use glory::id_set::IdSet;
use glory::keyed_views::KeyedViews;
use glory::reflow::{Bond, Cage, Lotus, RevisableId};
use glory::reflow::runtime::Runtime;
use glory::truck::Truck;
use glory::view::ViewId;

type Mapper = Box<dyn Fn(&mut Runtime<i64>) -> i64>;

fn view(raw: &str) -> ViewId {
    ViewId::new(HolderId(3), raw.to_owned())
}

#[test]
fn a_bare_lotus_is_a_plain_value() {
    let mut rt: Runtime<i64> = Runtime::new();
    let mut lotus: Lotus<i64, Mapper> = Lotus::bare(5);
    assert_eq!(lotus.id(), RevisableId(0));
    assert_eq!(lotus.version(&rt), 0);
    assert_eq!(lotus.holder_id(&rt), None);
    assert!(lotus.view_ids(&rt).is_empty());
    assert!(!lotus.is_revising(&rt));
    assert_eq!(lotus.get(&mut rt), &5);
    assert_eq!(lotus.get_untracked(&mut rt), &5);
    lotus.bind_view(&mut rt, &view("0"));
    assert_eq!(lotus.holder_id(&rt), Some(HolderId(3)));
    lotus.unbind_view(&mut rt, &view("0"));
    lotus.unlace_view(&mut rt, &view("0"), 1);
    assert_eq!(lotus.holder_id(&rt), Some(HolderId(3)));
    assert_eq!(rt.node_count(), 0);
}

#[test]
fn a_lotus_of_a_cage_acts_as_the_cage() {
    let mut rt: Runtime<i64> = Runtime::new();
    let cage = Cage::new(&mut rt, 7);
    let mut lotus: Lotus<i64, Mapper> = cage.read();
    assert_eq!(lotus.id(), cage.id());
    assert_eq!(lotus.version(&rt), 1);
    lotus.bind_view(&mut rt, &view("0"));
    assert!(lotus.view_ids(&rt) == vec![view("0")]);
    assert_eq!(lotus.holder_id(&rt), Some(HolderId(3)));
    assert!(!lotus.is_revising(&rt));
    assert!(cage.signal(&mut rt));
    assert!(lotus.is_revising(&rt));
    rt.push_layer();
    assert_eq!(lotus.get_untracked(&mut rt), &7);
    assert_eq!(rt.pop_layer().unwrap().len(), 0);
    rt.push_layer();
    assert_eq!(lotus.get(&mut rt), &7);
    assert!(rt.pop_layer().unwrap().contains(cage.id().value()));
    lotus.unlace_view(&mut rt, &view("0"), 0);
    assert_eq!(lotus.view_ids(&rt).len(), 1);
    lotus.unbind_view(&mut rt, &view("0"));
    assert!(lotus.view_ids(&rt).is_empty());
}

#[test]
fn a_lotus_of_a_bond_acts_as_the_bond() {
    let mut rt: Runtime<i64> = Runtime::new();
    let cage = Cage::new(&mut rt, 7);
    let mapper: Mapper = Box::new(move |rt: &mut Runtime<i64>| *cage.get(rt) * 3);
    let bond = Bond::new(&mut rt, mapper);
    let id = bond.id();
    let mut lotus = Lotus::Bond(bond);
    assert_eq!(lotus.id(), id);
    assert_eq!(lotus.get(&mut rt), &21);
    cage.revise_silent(&mut rt, |v| *v += 1);
    assert_eq!(lotus.get_untracked(&mut rt), &24);
    assert_eq!(lotus.version(&rt), 2);
    lotus.bind_view(&mut rt, &view("0"));
    assert!(cage.view_ids(&rt) == vec![view("0")]);
    assert_eq!(lotus.holder_id(&rt), Some(HolderId(3)));
    assert!(cage.signal(&mut rt));
    assert!(lotus.is_revising(&rt));
    lotus.unlace_view(&mut rt, &view("0"), 5);
    assert!(lotus.view_ids(&rt).is_empty());
    assert!(cage.view_ids(&rt).is_empty());
    lotus.bind_view(&mut rt, &view("1"));
    lotus.unbind_view(&mut rt, &view("1"));
    assert!(cage.view_ids(&rt).is_empty());
    // A read inside a capture hands on the cage, not the bond.
    rt.push_layer();
    assert_eq!(lotus.get(&mut rt), &24);
    let read = rt.pop_layer().unwrap();
    assert_eq!((read.len(), read.get_index(0)), (1, Some(cage.id().value())));
}

#[test]
fn a_bond_recomputed_binds_its_views_to_its_new_cages() {
    let mut rt: Runtime<i64> = Runtime::new();
    let pick = Cage::new(&mut rt, 0);
    let a = Cage::new(&mut rt, 10);
    let b = Cage::new(&mut rt, 20);
    let mapper: Mapper = Box::new(move |rt: &mut Runtime<i64>| {
        if *pick.get(rt) == 0 {
            *a.get(rt)
        } else {
            *b.get(rt)
        }
    });
    let bond = Bond::new(&mut rt, mapper);
    bond.bind_view(&mut rt, &view("0"));
    assert!(a.view_ids(&rt) == vec![view("0")]);
    assert!(b.view_ids(&rt).is_empty());
    pick.revise_silent(&mut rt, |v| *v = 1);
    assert_eq!(bond.get(&mut rt), &20);
    assert!(b.view_ids(&rt) == vec![view("0")]);
    assert!(rt.gathers(bond.id()).contains(b.id().value()));
    assert!(!rt.gathers(bond.id()).contains(a.id().value()));
    // The version kept is the sum over the cages read before.
    assert_eq!(bond.version(&rt), 3);
    assert_eq!(rt.dep_sum(rt.gathers(bond.id())), 3);
}

#[test]
fn an_id_set_keeps_the_order_of_arrival() {
    let mut set = IdSet::new();
    assert!(set.is_empty());
    assert!(set.insert(5));
    assert!(set.insert(2));
    assert!(!set.insert(5));
    assert_eq!(set.len(), 2);
    assert_eq!((set.get_index(0), set.get_index(1), set.get_index(2)), (Some(5), Some(2), None));
    assert!(set.contains(2) && !set.contains(3));
}

#[test]
fn keyed_views_keep_places_and_fill_gaps_from_the_end() {
    let mut map = KeyedViews::new();
    assert!(map.is_empty());
    assert!(map.insert(1, view("a")).is_none());
    assert!(map.insert(2, view("b")).is_none());
    assert!(map.insert(3, view("c")).is_none());
    assert!(map.insert(2, view("d")).unwrap() == view("b"));
    assert_eq!(map.len(), 3);
    assert!(map.get_index(1).unwrap() == (2, view("d")));
    assert!(map.swap_remove(1).unwrap() == view("a"));
    assert!(map.swap_remove(1).is_none());
    assert!(map.get_index(0).unwrap() == (3, view("c")));
    assert!(map.get_index(1).unwrap() == (2, view("d")));
    assert!(map.get_index(2).is_none());
}

struct Greeter(&'static str);

impl Enabler for Greeter {
    fn enable(self, truck: &mut Truck) {
        truck.insert("greeting", self.0.to_owned());
    }
}

#[test]
fn an_enabler_prepares_the_truck() {
    let mut truck = Truck::new();
    enable(&mut truck, Greeter("hello"));
    assert_eq!(truck.get::<String>("greeting").unwrap(), "hello");
}
