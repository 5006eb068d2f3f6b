use glory::holder::HolderId;
use glory::reflow::runtime::Runtime;
use glory::scope::Scope;
use glory::view::ViewId;
use glory::widget::{detach_children, flood, Widget};
use glory::widgets::switch::{find_first_true, Case, Switch};

struct Page(usize);

impl Widget<u8> for Page {
    fn attach(&mut self, _ctx: &mut Scope<Page>, _rt: &mut Runtime<u8>) {}

    fn build(&mut self, _ctx: &mut Scope<Page>, _rt: &mut Runtime<u8>) {}

    fn flood(&mut self, ctx: &mut Scope<Page>, rt: &mut Runtime<u8>) {
        flood(ctx, rt);
    }

    fn patch(&mut self, _ctx: &mut Scope<Page>, _rt: &mut Runtime<u8>) {}

    fn detach(&mut self, ctx: &mut Scope<Page>, rt: &mut Runtime<u8>) {
        detach_children(ctx, rt);
    }
}

fn pages(ctx: &Scope<Page>) -> Vec<(usize, String, bool)> {
    ctx.child_views.iter().map(|v| (v.widget.0, v.id.as_str().to_owned(), v.is_attached())).collect()
}

fn raw(id: &Option<ViewId>) -> Option<&str> {
    id.as_ref().map(|id| id.as_str())
}

#[test]
fn the_first_condition_that_holds_is_found() {
    assert_eq!(find_first_true(&vec![]), None);
    assert_eq!(find_first_true(&vec![false, false]), None);
    assert_eq!(find_first_true(&vec![false, true, true]), Some(1));
    assert_eq!(find_first_true(&vec![true]), Some(0));
}

#[test]
fn a_switch_shows_the_view_of_the_first_case_that_holds() {
    let mut rt = Runtime::new();
    let mut ctx: Scope<Page> = Scope::new(ViewId::new(HolderId(1), "0".to_owned()));
    let mut switch = Switch::new().push(Case::new()).push(Case::new().cache(true)).push(Case::new());
    assert_eq!(switch.cases.len(), 3);
    assert!(switch.cases[1].use_cache && !switch.cases[0].use_cache);

    switch.build(&vec![false, true, true], &mut ctx, &mut rt, Page);
    assert_eq!(switch.active_index, Some(1));
    assert_eq!(raw(&switch.active_view_id), Some("0-0"));
    assert_eq!(pages(&ctx), vec![(1, "0-0".to_owned(), true)]);

    // The same case again changes nothing.
    switch.patch(&vec![false, true, false], &mut ctx, &mut rt, Page);
    assert_eq!(pages(&ctx), vec![(1, "0-0".to_owned(), true)]);

    // Another case: the view shown leaves and is kept, a new one comes.
    switch.patch(&vec![true, true, false], &mut ctx, &mut rt, Page);
    assert_eq!(switch.active_index, Some(0));
    assert_eq!(raw(&switch.active_view_id), Some("0-1"));
    assert_eq!(pages(&ctx), vec![(0, "0-1".to_owned(), true)]);
    let kept = switch.cases[1].cached_view.as_ref().unwrap();
    assert_eq!((kept.widget.0, kept.id.as_str(), kept.is_attached()), (1, "0-0", false));

    // No case holds: the view shown leaves, and its case kept nothing.
    switch.patch(&vec![false, false, false], &mut ctx, &mut rt, Page);
    assert_eq!(switch.active_index, None);
    assert_eq!(raw(&switch.active_view_id), Some("0-1"));
    assert!(pages(&ctx).is_empty());
    assert!(switch.cases[0].cached_view.is_none());

    // The case that kept its view names that view again; it is no child, so
    // nothing is attached.
    switch.patch(&vec![false, true, false], &mut ctx, &mut rt, Page);
    assert_eq!(switch.active_index, Some(1));
    assert_eq!(raw(&switch.active_view_id), Some("0-0"));
    assert!(pages(&ctx).is_empty());
    assert_eq!(ctx.next_child_view_id, 2);
}

#[test]
fn a_switch_without_a_true_condition_builds_nothing() {
    let mut rt = Runtime::new();
    let mut ctx: Scope<Page> = Scope::new(ViewId::new(HolderId(1), "0".to_owned()));
    let mut switch = Switch::new().push(Case::new());
    switch.build(&vec![false], &mut ctx, &mut rt, Page);
    assert_eq!(switch.active_index, None);
    assert!(switch.active_view_id.is_none());
    assert!(ctx.child_views.is_empty());
    switch.patch(&vec![true], &mut ctx, &mut rt, Page);
    assert_eq!(pages(&ctx), vec![(0, "0-0".to_owned(), true)]);
}
