use glory::holder::HolderId;
use glory::node::Node;
use glory::reflow::runtime::Runtime;
use glory::scope::{Scope, View};
use glory::text::decimal_text;
use glory::view::{ViewId, ViewPosition};
use glory::view_map::ViewMap;
use glory::widget::{detach_children, flood, mount_to, show_in, store_in, Widget};

/// A widget that writes down what happens to it.
#[derive(Default)]
struct Leaf {
    name: &'static str,
    log: Vec<String>,
    kids: Vec<&'static str>,
    node: Option<Node>,
}

impl Leaf {
    fn named(name: &'static str) -> Leaf {
        Leaf { name, ..Leaf::default() }
    }

    fn with_kids(name: &'static str, kids: &[&'static str]) -> Leaf {
        Leaf { name, kids: kids.to_vec(), ..Leaf::default() }
    }
}

impl Widget<i64> for Leaf {
    fn attach(&mut self, ctx: &mut Scope<Leaf>, _rt: &mut Runtime<i64>) {
        self.log.push(format!("attach {:?}", ctx.position));
        ctx.last_child_node = self.node;
        ctx.first_child_node = self.node;
    }

    fn build(&mut self, ctx: &mut Scope<Leaf>, _rt: &mut Runtime<i64>) {
        self.log.push("build".to_owned());
        for kid in self.kids.clone() {
            show_in(Leaf::named(kid), ctx);
        }
    }

    fn flood(&mut self, ctx: &mut Scope<Leaf>, rt: &mut Runtime<i64>) {
        self.log.push("flood".to_owned());
        flood(ctx, rt);
    }

    fn patch(&mut self, _ctx: &mut Scope<Leaf>, _rt: &mut Runtime<i64>) {
        self.log.push("patch".to_owned());
    }

    fn detach(&mut self, ctx: &mut Scope<Leaf>, rt: &mut Runtime<i64>) {
        self.log.push("detach".to_owned());
        detach_children(ctx, rt);
    }
}

fn id(raw: &str) -> ViewId {
    ViewId::new(HolderId(1), raw.to_owned())
}

fn names(views: &Vec<View<Leaf>>) -> Vec<&'static str> {
    views.iter().map(|v| v.widget.name).collect()
}

fn raws(views: &Vec<View<Leaf>>) -> Vec<String> {
    views.iter().map(|v| v.id.as_str().to_owned()).collect()
}

#[test]
fn numbers_are_written_in_decimal() {
    assert_eq!(decimal_text(0), "0");
    assert_eq!(decimal_text(7), "7");
    assert_eq!(decimal_text(10), "10");
    assert_eq!(decimal_text(4096), "4096");
    assert_eq!(decimal_text(u64::MAX), "18446744073709551615");
}

#[test]
fn a_scope_numbers_its_children() {
    let mut scope: Scope<Leaf> = Scope::new_root(id("3"));
    assert!(scope.is_root() && !scope.is_built() && !scope.is_attached());
    assert_eq!(scope.holder_id(), HolderId(1));
    assert!(scope.view_id() == &id("3"));
    assert!(scope.next_child_view_id() == id("3-0"));
    assert!(scope.next_child_view_id() == id("3-1"));
    let child = scope.beget();
    assert!(child.view_id == id("3-2"));
    assert!(!child.is_root());
    assert_eq!(child.position, ViewPosition::Tail);
    assert_eq!((child.parent_node(), child.graff()), (None, None));
    scope.next_child_view_id = u64::MAX;
    assert!(scope.next_child_view_id() == id("3-18446744073709551615"));
    assert!(scope.next_child_view_id() == id("3-0"));
}

#[test]
fn stored_children_wait_and_shown_children_are_listed() {
    let mut scope: Scope<Leaf> = Scope::new(id("0"));
    let a = store_in(Leaf::named("a"), &mut scope);
    let b = show_in(Leaf::named("b"), &mut scope);
    assert!(a == id("0-0") && b == id("0-1"));
    assert_eq!(names(scope.child_views()), vec!["a", "b"]);
    assert!(scope.show_list == vec![b.clone()]);
    assert_eq!(scope.index_of(&b), Some(1));
    assert_eq!(scope.index_of(&id("0-9")), None);
    assert!(scope.child_views.iter().all(|v| !v.is_attached() && !v.is_built()));
}

#[test]
fn mounting_attaches_builds_and_floods_the_tree() {
    let mut rt = Runtime::new();
    let mut views = ViewMap::new();
    let root = Scope::new_root(id("0"));
    let root_id =
        mount_to(Leaf::with_kids("root", &["a", "b"]), root, Node(9), &mut views, &mut rt);
    assert!(root_id == id("0"));
    let view = views.get(&root_id).unwrap();
    assert!(view.is_attached() && view.is_built());
    assert_eq!(view.holder_id(), HolderId(1));
    assert_eq!(view.widget.log, vec!["attach Tail", "build", "flood"]);
    assert_eq!((view.scope.parent_node(), view.scope.graff()), (Some(Node(9)), Some(Node(9))));
    assert!(view.scope.show_list == vec![id("0"), id("0-0"), id("0-1")]);
    assert_eq!(raws(&view.scope.child_views), vec!["0-0", "0-1"]);
    for child in &view.scope.child_views {
        assert!(child.is_attached() && child.is_built());
        assert_eq!(child.widget.log, vec!["attach Tail", "build", "flood"]);
        assert_eq!(child.scope.position, ViewPosition::Unset);
        assert_eq!(child.scope.parent_node(), Some(Node(9)));
    }
    assert!(views.get(&id("0-1")).unwrap().widget.name == "b");
    assert!(view.child(&id("0-1")).unwrap().widget.name == "b");
    assert!(view.child(&id("0-7")).is_none());
    assert!(views.get(&id("0-7")).is_none());
    assert!(views.get(&id("1")).is_none());
    assert!(views.get(&id("0-1-0")).is_none());
    assert!(!glory::reflow::scheduler::is_batching(&rt, HolderId(1)));
}

#[test]
fn attaching_twice_runs_the_hooks_once() {
    let mut rt = Runtime::new();
    let mut view = View::new(Scope::new(id("0")), Leaf::named("x"));
    view.attach(&mut rt);
    view.attach(&mut rt);
    view.build(&mut rt);
    assert_eq!(view.widget.log, vec!["attach Tail", "build", "flood"]);
    view.patch(&mut rt);
    view.detach(&mut rt);
    view.detach(&mut rt);
    assert!(!view.is_attached() && view.is_built());
    assert_eq!(view.widget.log[3..], ["patch", "detach", "detach"]);
    view.attach(&mut rt);
    assert_eq!(view.widget.log.len(), 8);
    assert_eq!(view.widget.log[6..], ["attach Tail", "flood"]);
}

#[test]
fn a_child_is_placed_by_its_attached_siblings() {
    let mut rt = Runtime::new();
    let mut scope: Scope<Leaf> = Scope::new(id("0"));
    scope.graff_node = Some(Node(1));
    let a = store_in(Leaf { node: Some(Node(10)), ..Leaf::named("a") }, &mut scope);
    let b = store_in(Leaf::named("b"), &mut scope);
    let c = store_in(Leaf { node: Some(Node(30)), ..Leaf::named("c") }, &mut scope);
    for v in scope.child_views.iter_mut() {
        v.scope.position = ViewPosition::Unset;
    }
    // Nothing is attached yet: the child shares no target with its parent.
    assert_eq!(scope.decide_position(1), ViewPosition::Tail);
    scope.attach_child(&c, &mut rt);
    assert_eq!(scope.child_views[2].widget.log[0], "attach Tail");
    // `b` goes before the attached sibling behind it.
    assert_eq!(scope.decide_position(1), ViewPosition::Next(Node(30)));
    scope.attach_child(&a, &mut rt);
    assert_eq!(scope.child_views[0].widget.log[0], "attach Next(Node(30))");
    // The second child goes behind the first once that is attached.
    assert_eq!(scope.decide_position(1), ViewPosition::Prev(Node(10)));
    scope.attach_child(&b, &mut rt);
    assert_eq!(scope.child_views[1].widget.log[0], "attach Prev(Node(10))");
    assert!(scope.child_views.iter().all(|v| v.scope.position == ViewPosition::Unset));
    assert!(scope.show_list == vec![c.clone(), a.clone(), b.clone()]);
    // A child with a position of its own keeps it; a child with the parent's
    // target takes the parent's position.
    let d = store_in(Leaf::named("d"), &mut scope);
    scope.child_views[3].scope.position = ViewPosition::Head;
    scope.position = ViewPosition::Head;
    scope.attach_child(&d, &mut rt);
    assert_eq!(scope.child_views[3].widget.log[0], "attach Head");
    // An unknown child changes nothing.
    scope.attach_child(&id("0-9"), &mut rt);
    assert_eq!(scope.show_list.len(), 4);
}

#[test]
fn a_child_is_placed_by_the_nearest_attached_sibling() {
    let mut rt = Runtime::new();
    let mut scope: Scope<Leaf> = Scope::new(id("0"));
    scope.graff_node = Some(Node(1));
    let a = store_in(Leaf { node: Some(Node(10)), ..Leaf::named("a") }, &mut scope);
    let _b = store_in(Leaf::named("b"), &mut scope);
    let _c = store_in(Leaf { node: Some(Node(30)), ..Leaf::named("c") }, &mut scope);
    let d = store_in(Leaf { node: Some(Node(40)), ..Leaf::named("d") }, &mut scope);
    for v in scope.child_views.iter_mut() {
        v.scope.position = ViewPosition::Unset;
    }
    scope.attach_child(&a, &mut rt);
    // The siblings between are not attached: they are passed over.
    assert_eq!(scope.decide_position(3), ViewPosition::Prev(Node(10)));
    scope.attach_child(&d, &mut rt);
    assert_eq!(scope.child_views[3].widget.log[0], "attach Prev(Node(10))");
    // A child goes behind the last element of the sibling before it.
    scope.child_views[0].scope.first_child_node = Some(Node(11));
    scope.child_views[0].scope.last_child_node = Some(Node(12));
    scope.child_views[3].scope.first_child_node = Some(Node(41));
    scope.child_views[3].scope.last_child_node = Some(Node(42));
    assert_eq!(scope.decide_position(2), ViewPosition::Prev(Node(12)));
    assert_eq!(scope.decide_position(1), ViewPosition::Prev(Node(12)));
    // With no attached sibling before it, it goes before the first element of
    // the nearest attached sibling behind it.
    scope.child_views[0].scope.is_attached = false;
    assert_eq!(scope.decide_position(1), ViewPosition::Next(Node(41)));
    assert_eq!(scope.decide_position(0), ViewPosition::Next(Node(41)));
}

#[test]
fn detaching_a_child_hands_it_back() {
    let mut rt = Runtime::new();
    let mut scope: Scope<Leaf> = Scope::new(id("0"));
    let a = show_in(Leaf::named("a"), &mut scope);
    let b = show_in(Leaf::named("b"), &mut scope);
    let c = show_in(Leaf::named("c"), &mut scope);
    flood(&mut scope, &mut rt);
    assert!(scope.child_views.iter().all(|v| v.is_attached()));
    let gone = scope.detach_child(&a, &mut rt).unwrap();
    assert!(gone.id == a && !gone.is_attached());
    assert_eq!(gone.widget.log.last().unwrap(), "detach");
    // The last child takes the place of the one that left.
    assert_eq!(names(&scope.child_views), vec!["c", "b"]);
    assert!(scope.show_list == vec![c.clone(), b.clone()]);
    assert!(scope.detach_child(&a, &mut rt).is_none());
    // A child that is not attached stays.
    scope.child_views[1].detach(&mut rt);
    assert!(scope.detach_child(&b, &mut rt).is_none());
    assert_eq!(names(&scope.child_views), vec!["c", "b"]);
    assert!(scope.show_list == vec![c]);
}

#[test]
fn detach_children_keeps_what_is_not_attached() {
    let mut rt = Runtime::new();
    let mut scope: Scope<Leaf> = Scope::new(id("0"));
    for name in ["a", "b", "c", "d"] {
        show_in(Leaf::named(name), &mut scope);
    }
    flood(&mut scope, &mut rt);
    let keep = store_in(Leaf::named("e"), &mut scope);
    scope.child_views[1].detach(&mut rt);
    detach_children(&mut scope, &mut rt);
    assert_eq!(names(&scope.child_views), vec!["e", "b"]);
    assert!(scope.show_list.is_empty());
    assert!(scope.child_views.iter().all(|v| !v.is_attached()));
    assert!(scope.index_of(&keep).is_some());
    detach_children(&mut scope, &mut rt);
    assert_eq!(scope.child_views.len(), 2);
}

#[test]
fn views_are_put_first_last_before_and_behind() {
    let mut rt = Runtime::new();
    let mut view = View::new(Scope::new(id("0")), Leaf::named("root"));
    let make = |raw: &str, name: &'static str| View::new(Scope::new(id(raw)), Leaf::named(name));
    view.append_view(make("0-a", "a"), &mut rt);
    view.append_view(make("0-b", "b"), &mut rt);
    view.prepend_view(make("0-c", "c"), &mut rt);
    assert_eq!(names(&view.scope.child_views), vec!["c", "a", "b"]);
    assert!(view.before_view(&id("0-b"), make("0-d", "d"), &mut rt));
    assert_eq!(names(&view.scope.child_views), vec!["c", "a", "d", "b"]);
    assert!(view.after_view(&id("0-c"), make("0-e", "e"), &mut rt));
    assert_eq!(names(&view.scope.child_views), vec!["c", "e", "a", "d", "b"]);
    assert!(view.after_view(&id("0-b"), make("0-f", "f"), &mut rt));
    assert_eq!(names(&view.scope.child_views), vec!["c", "e", "a", "d", "b", "f"]);
    assert!(!view.before_view(&id("0-z"), make("0-g", "g"), &mut rt));
    assert!(!view.after_view(&id("0-z"), make("0-g", "g"), &mut rt));
    assert_eq!(view.scope.child_views.len(), 6);
    assert!(view.scope.child_views.iter().all(|v| v.is_attached() && v.is_built()));
    // A view with the identifier of a child takes the child's place first.
    view.prepend_view(make("0-d", "d2"), &mut rt);
    assert_eq!(names(&view.scope.child_views), vec!["d2", "c", "e", "a", "b", "f"]);
    view.append_view(make("0-e", "e2"), &mut rt);
    assert_eq!(names(&view.scope.child_views), vec!["d2", "c", "e2", "a", "b", "f"]);
    assert_eq!(view.scope.show_list.len(), 6);
}

#[test]
fn the_first_and_last_element_are_looked_for_down_the_tree() {
    let mut view = View::new(Scope::new(id("0")), Leaf::named("root"));
    assert_eq!((view.first_child_node(), view.last_child_node()), (None, None));
    let mut a = View::new(Scope::new(id("0-0")), Leaf::named("a"));
    let mut deep = View::new(Scope::new(id("0-0-0")), Leaf::named("deep"));
    deep.scope.first_child_node = Some(Node(1));
    deep.scope.last_child_node = Some(Node(2));
    a.scope.insert_child(deep);
    let mut b = View::new(Scope::new(id("0-1")), Leaf::named("b"));
    b.scope.first_child_node = Some(Node(3));
    b.scope.last_child_node = Some(Node(4));
    view.scope.insert_child(a);
    view.scope.insert_child(b);
    view.scope.insert_child(View::new(Scope::new(id("0-2")), Leaf::named("c")));
    assert_eq!((view.first_child_node(), view.last_child_node()), (Some(Node(1)), Some(Node(4))));
    view.scope.first_child_node = Some(Node(7));
    assert_eq!(view.first_child_node(), Some(Node(7)));
    view.scope.move_child(0, 2);
    assert_eq!(names(&view.scope.child_views), vec!["b", "c", "a"]);
    assert_eq!(view.last_child_node(), Some(Node(2)));
}

#[test]
fn a_root_view_is_replaced_under_its_identifier() {
    let mut views: ViewMap<Leaf> = ViewMap::new();
    assert!(views.insert(View::new(Scope::new_root(id("0")), Leaf::named("a"))).is_none());
    assert!(views.insert(View::new(Scope::new_root(id("1")), Leaf::named("b"))).is_none());
    let before = views.insert(View::new(Scope::new_root(id("0")), Leaf::named("c"))).unwrap();
    assert_eq!(before.widget.name, "a");
    assert_eq!(names(&views.0), vec!["c", "b"]);
    let mut rt = Runtime::new();
    assert!(views.patch(&id("1"), &mut rt));
    assert!(!views.patch(&id("2"), &mut rt));
    assert_eq!(views.get(&id("1")).unwrap().widget.log, vec!["patch"]);
}

#[test]
fn a_view_is_reached_for_change_by_its_path() {
    let mut rt = Runtime::new();
    let mut views = ViewMap::new();
    let root = Scope::new_root(id("0"));
    mount_to(Leaf::with_kids("root", &["a", "b"]), root, Node(9), &mut views, &mut rt);
    views.get_mut(&id("0-1")).unwrap().widget.name = "b2";
    assert_eq!(views.get(&id("0-1")).unwrap().widget.name, "b2");
    assert!(views.get_mut(&id("0-5")).is_none());
    assert!(views.get_mut(&id("4")).is_none());
    let root = views.get_mut(&id("0")).unwrap();
    root.child_mut(&id("0-0")).unwrap().widget.name = "a2";
    assert!(root.child_mut(&id("0-9")).is_none());
    assert_eq!(names(&root.scope.child_views), vec!["a2", "b2"]);
}
