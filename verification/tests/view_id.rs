use glory::holder::HolderId;
use glory::reflow::{IdSource, RevisableId};
use glory::view::ViewId;

fn id(holder: u64, raw: &str) -> ViewId {
    ViewId::new(HolderId(holder), raw.to_owned())
}

fn raws(list: Vec<ViewId>) -> Vec<String> {
    list.into_iter().map(|v| v.into_inner()).collect()
}

#[test]
fn rise_to_root_lists_self_then_ancestors() {
    let list = id(3, "0-1-12").rise_to_root();
    assert!(list.iter().all(|v| v.holder_id() == HolderId(3)));
    assert_eq!(raws(list), vec!["0-1-12", "0-1", "0"]);
}

#[test]
fn rise_to_root_of_a_root_is_itself() {
    assert_eq!(raws(id(1, "7").rise_to_root()), vec!["7"]);
    assert_eq!(raws(id(1, "").rise_to_root()), vec![""]);
}

#[test]
fn rise_to_root_keeps_empty_steps() {
    assert_eq!(raws(id(1, "a--b").rise_to_root()), vec!["a--b", "a-", "a"]);
    assert_eq!(raws(id(1, "-").rise_to_root()), vec!["-", ""]);
}

#[test]
fn view_ids_compare_by_holder_and_path() {
    assert!(id(1, "0-1") == id(1, "0-1"));
    assert!(id(1, "0-1") != id(2, "0-1"));
    assert!(id(1, "0-1") != id(1, "0-2"));
    assert_eq!(id(4, "x").clone().into_inner(), "x");
}

#[test]
fn identifiers_are_drawn_in_order() {
    let mut source = IdSource::new();
    assert!(source.has_next());
    assert_eq!(RevisableId::next(&mut source).value(), 1);
    assert_eq!(RevisableId::next(&mut source).value(), 2);
    assert_eq!(HolderId::next(&mut source).value(), 3);
    assert!(HolderId::null().is_null());
    assert!(!HolderId(3).is_null());
    assert_eq!(HolderId::default(), HolderId::null());
    assert_eq!(HolderId(12).to_string(), "#12");
}
