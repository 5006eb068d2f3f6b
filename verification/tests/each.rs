use glory::holder::HolderId;
use glory::node::Node;
use glory::reflow::Cage;
use glory::reflow::runtime::Runtime;
use glory::scope::Scope;
use glory::view::ViewId;
use glory::view_map::ViewMap;
use glory::widget::{detach_children, flood, mount_to, Widget};
use glory::widgets::each::Each;
use std::cell::RefCell;
use std::rc::Rc;

type Log = Rc<RefCell<Vec<String>>>;

/// A list whose rows follow the keys kept in a cage, and its rows.
enum Ui {
    List { each: Each, keys: Cage, log: Log },
    Row { key: u64, log: Log },
}

impl Widget<Vec<u64>> for Ui {
    fn attach(&mut self, _ctx: &mut Scope<Ui>, _rt: &mut Runtime<Vec<u64>>) {
        if let Ui::Row { key, log } = self {
            log.borrow_mut().push(format!("attach {key}"));
        }
    }

    fn build(&mut self, ctx: &mut Scope<Ui>, rt: &mut Runtime<Vec<u64>>) {
        if let Ui::List { each, keys, log } = self {
            keys.bind_view(rt, ctx.view_id());
            let list = keys.get_untracked(rt).clone();
            each.build(&list, ctx, |i| Ui::Row { key: list[i], log: log.clone() });
        }
    }

    fn flood(&mut self, ctx: &mut Scope<Ui>, rt: &mut Runtime<Vec<u64>>) {
        flood(ctx, rt);
    }

    fn patch(&mut self, ctx: &mut Scope<Ui>, rt: &mut Runtime<Vec<u64>>) {
        if let Ui::List { each, keys, log } = self {
            let list = keys.get(rt).clone();
            each.patch(&list, ctx, rt, |i| Ui::Row { key: list[i], log: log.clone() });
        }
    }

    fn detach(&mut self, ctx: &mut Scope<Ui>, rt: &mut Runtime<Vec<u64>>) {
        if let Ui::Row { key, log } = self {
            log.borrow_mut().push(format!("detach {key}"));
        }
        detach_children(ctx, rt);
    }
}

fn rows(views: &ViewMap<Ui>, root: &ViewId) -> Vec<(u64, String)> {
    views
        .get(root)
        .unwrap()
        .scope
        .child_views
        .iter()
        .map(|v| match &v.widget {
            Ui::Row { key, .. } => (*key, v.id.as_str().to_owned()),
            Ui::List { .. } => panic!("a list among the rows"),
        })
        .collect()
}

fn entries(views: &ViewMap<Ui>, root: &ViewId) -> Vec<(u64, String)> {
    match &views.get(root).unwrap().widget {
        Ui::List { each, .. } => (0..each.len())
            .map(|i| each.get_index(i).unwrap())
            .map(|(k, v)| (k, v.into_inner()))
            .collect(),
        Ui::Row { .. } => panic!("a row at the root"),
    }
}

fn pairs(list: &[(u64, &str)]) -> Vec<(u64, String)> {
    list.iter().map(|(k, v)| (*k, (*v).to_owned())).collect()
}

struct Stage {
    rt: Runtime<Vec<u64>>,
    views: ViewMap<Ui>,
    keys: Cage,
    root: ViewId,
    log: Log,
}

fn stage(list: Vec<u64>) -> Stage {
    let mut rt = Runtime::new();
    let mut views = ViewMap::new();
    let keys = Cage::new(&mut rt, list);
    let log: Log = Rc::default();
    let ui = Ui::List { each: Each::new(), keys, log: log.clone() };
    let scope = Scope::new_root(ViewId::new(HolderId(1), "0".to_owned()));
    let root = mount_to(ui, scope, Node(1), &mut views, &mut rt);
    Stage { rt, views, keys, root, log }
}

fn taken(log: &Log) -> Vec<String> {
    std::mem::take(&mut *log.borrow_mut())
}

#[test]
fn a_list_builds_one_row_for_each_item() {
    let s = stage(vec![10, 20, 30]);
    assert_eq!(rows(&s.views, &s.root), pairs(&[(10, "0-0"), (20, "0-1"), (30, "0-2")]));
    assert_eq!(entries(&s.views, &s.root), pairs(&[(10, "0-0"), (20, "0-1"), (30, "0-2")]));
    assert_eq!(taken(&s.log), vec!["attach 10", "attach 20", "attach 30"]);
}

#[test]
fn removing_the_middle_item_detaches_one_row_and_keeps_the_others() {
    let mut s = stage(vec![10, 20, 30]);
    taken(&s.log);
    s.keys.revise(&mut s.rt, &mut s.views, |list| {
        list.remove(1);
    });
    assert_eq!(entries(&s.views, &s.root), pairs(&[(10, "0-0"), (30, "0-2")]));
    assert_eq!(rows(&s.views, &s.root), pairs(&[(10, "0-0"), (30, "0-2")]));
    assert_eq!(taken(&s.log), vec!["detach 20"]);
}

#[test]
fn a_new_item_gets_a_new_row_at_its_place() {
    let mut s = stage(vec![10, 30]);
    taken(&s.log);
    s.keys.revise(&mut s.rt, &mut s.views, |list| list.insert(1, 25));
    assert_eq!(entries(&s.views, &s.root), pairs(&[(10, "0-0"), (25, "0-2"), (30, "0-1")]));
    assert_eq!(rows(&s.views, &s.root), pairs(&[(10, "0-0"), (25, "0-2"), (30, "0-1")]));
    assert_eq!(taken(&s.log), vec!["attach 25"]);
}

#[test]
fn rows_that_change_places_are_attached_again() {
    let mut s = stage(vec![1, 2, 3]);
    taken(&s.log);
    s.keys.revise(&mut s.rt, &mut s.views, |list| list.reverse());
    assert_eq!(entries(&s.views, &s.root), pairs(&[(3, "0-2"), (2, "0-1"), (1, "0-0")]));
    assert_eq!(rows(&s.views, &s.root), pairs(&[(3, "0-2"), (2, "0-1"), (1, "0-0")]));
    assert_eq!(taken(&s.log), vec!["attach 3", "attach 2"]);
    // The same list again moves nothing.
    s.keys.revise(&mut s.rt, &mut s.views, |_| {});
    assert!(taken(&s.log).is_empty());
}

#[test]
fn a_list_can_be_emptied_and_filled_again() {
    let mut s = stage(vec![7, 8]);
    taken(&s.log);
    s.keys.revise(&mut s.rt, &mut s.views, |list| list.clear());
    assert!(rows(&s.views, &s.root).is_empty());
    assert!(entries(&s.views, &s.root).is_empty());
    assert_eq!(taken(&s.log), vec!["detach 7", "detach 8"]);
    s.keys.revise(&mut s.rt, &mut s.views, |list| list.push(9));
    assert_eq!(rows(&s.views, &s.root), pairs(&[(9, "0-2")]));
    assert_eq!(taken(&s.log), vec!["attach 9"]);
}
