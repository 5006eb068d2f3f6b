//! View identifiers and the tree of views.

use crate::holder::HolderId;
use crate::node::Node;
use vstd::prelude::*;
use vstd::std_specs::cmp::PartialEqSpecImpl;
use vstd::string::*;

verus! {

/// Separates the steps of a view's path.
pub const VIEW_ID_DELIMITER: char = '-';

/// Where the output of a view goes among that of its siblings.
#[derive(Debug, Clone, Copy, PartialEq, Eq, Structural)]
pub enum ViewPosition {
    /// Not decided.
    Unset,
    /// Before everything else in the parent.
    Head,
    /// Just behind the given element.
    Prev(Node),
    /// Just before the given element.
    Next(Node),
    /// Behind everything else in the parent.
    Tail,
}

impl Default for ViewPosition {
    fn default() -> (position: ViewPosition)
        ensures
            position == ViewPosition::Unset,
    {
        ViewPosition::Unset
    }
}

/// What a view identifier stands for: its holder and the characters of its path.
pub struct ViewKey {
    pub holder: u64,
    pub raw: Seq<char>,
}

/// The path of a view from its root, as `root-child-child...`, together with
/// the holder that the view belongs to.
#[derive(Debug, Hash)]
pub struct ViewId {
    pub(crate) raw_value: String,
    holder_id: HolderId,
}

impl View for ViewId {
    type V = ViewKey;

    closed spec fn view(&self) -> ViewKey {
        ViewKey { holder: self.holder_id@, raw: self.raw_value@ }
    }
}

impl Clone for ViewId {
    fn clone(&self) -> (copy: ViewId)
        ensures
            copy@ == self@,
    {
        ViewId { raw_value: self.raw_value.clone(), holder_id: self.holder_id }
    }
}

impl PartialEq for ViewId {
    fn eq(&self, other: &ViewId) -> (b: bool) {
        self.holder_id.0 == other.holder_id.0 && self.raw_value == other.raw_value
    }
}

impl Eq for ViewId {}

impl PartialEqSpecImpl for ViewId {
    open spec fn obeys_eq_spec() -> bool {
        true
    }

    open spec fn eq_spec(&self, other: &ViewId) -> bool {
        self@ == other@
    }
}

/// The parts of `raw` that end just before a delimiter standing below position
/// `end`, from the longest to the shortest.
pub open spec fn prefixes_below(raw: Seq<char>, end: nat) -> Seq<Seq<char>>
    decreases end,
{
    if end == 0 || end > raw.len() {
        Seq::empty()
    } else if raw[end - 1] == VIEW_ID_DELIMITER {
        seq![raw.subrange(0, end - 1)] + prefixes_below(raw, (end - 1) as nat)
    } else {
        prefixes_below(raw, (end - 1) as nat)
    }
}

/// The path itself, then the path of each ancestor, up to the root.
pub open spec fn ancestor_paths(raw: Seq<char>) -> Seq<Seq<char>> {
    seq![raw] + prefixes_below(raw, raw.len())
}

impl ViewId {
    pub fn new(holder_id: HolderId, raw_value: String) -> (id: ViewId)
        ensures
            id@ == (ViewKey { holder: holder_id@, raw: raw_value@ }),
    {
        ViewId { raw_value, holder_id }
    }

    pub fn holder_id(&self) -> (holder_id: HolderId)
        ensures
            holder_id@ == self@.holder,
    {
        self.holder_id
    }

    pub fn into_inner(self) -> (raw_value: String)
        ensures
            raw_value@ == self@.raw,
    {
        self.raw_value
    }

    /// The path as text.
    pub fn as_str(&self) -> (raw_value: &str)
        ensures
            raw_value@ == self@.raw,
    {
        self.raw_value.as_str()
    }

    /// This identifier followed by those of its ancestors, the root last. All
    /// of them belong to this identifier's holder.
    pub fn rise_to_root(&self) -> (list: Vec<ViewId>)
        ensures
            list.len() == ancestor_paths(self@.raw).len(),
            forall|i: int|
                0 <= i < list.len() ==> (#[trigger] list[i])@ == (ViewKey {
                    holder: self@.holder,
                    raw: ancestor_paths(self@.raw)[i],
                }),
    {
        let raw = self.raw_value.as_str();
        let n = raw.unicode_len();
        let mut list: Vec<ViewId> = Vec::new();
        list.push(self.clone());
        let mut end: usize = n;
        while end > 0
            invariant
                raw@ == self@.raw,
                n == raw@.len(),
                end <= n,
                list.len() + prefixes_below(raw@, end as nat).len() == ancestor_paths(raw@).len(),
                forall|i: int|
                    0 <= i < list.len() ==> (#[trigger] list[i])@ == (ViewKey {
                        holder: self@.holder,
                        raw: ancestor_paths(raw@)[i],
                    }),
                forall|j: int|
                    0 <= j < prefixes_below(raw@, end as nat).len() ==> prefixes_below(
                        raw@,
                        end as nat,
                    )[j] == ancestor_paths(raw@)[list.len() + j],
            decreases end,
        {
            end = end - 1;
            if raw.get_char(end) == VIEW_ID_DELIMITER {
                let part = raw.substring_char(0, end);
                proof {
                    let rest = prefixes_below(raw@, end as nat);
                    let all = prefixes_below(raw@, (end + 1) as nat);
                    assert(all == seq![raw@.subrange(0, end as int)] + rest);
                    assert(all[0] == raw@.subrange(0, end as int));
                    assert forall|j: int| 0 <= j < rest.len() implies rest[j] == ancestor_paths(
                        raw@,
                    )[list.len() + 1 + j] by {
                        assert(rest[j] == all[j + 1]);
                    }
                }
                list.push(ViewId::new(self.holder_id, String::from_str(part)));
            }
        }
        list
    }
}

} // verus!
