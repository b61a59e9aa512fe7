//! The tree of labelled entries under which recorded signals are shown.

use vstd::prelude::*;

verus! {

/// How a derived value is written out.
#[derive(Copy, Clone, Debug, PartialEq, Eq, Structural)]
pub enum Formatting {
    Binary,
    SignedDecimal,
    UnsignedDecimal,
    Hexadecimal,
}

/// An entry that shows the history of one bit tracker.
#[derive(Debug)]
pub struct Label {
    pub identifier: &'static str,
    pub tracker: usize,
}

/// An entry that holds further entries, and may show a value tracker.
#[derive(Debug)]
pub struct Group {
    pub identifier: &'static str,
    pub tracker: Option<(usize, Formatting)>,
    pub items: Vec<InspectorItem>,
    pub expanded: bool,
}

/// An entry of the tree.
#[derive(Debug)]
pub enum InspectorItem {
    Group(Group),
    Label(Label),
}

impl Label {
    pub fn new(identifier: &'static str, tracker: usize) -> (result: Self)
        ensures
            result == (Label { identifier: identifier, tracker: tracker }),
    {
        Self { identifier: identifier, tracker: tracker }
    }
}

impl Group {
    /// A group starts out expanded.
    pub fn new(
        identifier: &'static str,
        tracker: Option<(usize, Formatting)>,
        items: Vec<InspectorItem>,
    ) -> (result: Self)
        ensures
            result == (Group { identifier: identifier, tracker: tracker, items: items, expanded: true }),
    {
        Self { identifier: identifier, tracker: tracker, items: items, expanded: true }
    }
}

impl Clone for Label {
    fn clone(&self) -> (result: Self)
        ensures
            result == *self,
    {
        Label { identifier: self.identifier, tracker: self.tracker }
    }
}

/// An entry of the tree as plain values.
pub enum Entry {
    Group {
        identifier: &'static str,
        tracker: Option<(usize, Formatting)>,
        items: Seq<Entry>,
        expanded: bool,
    },
    Label { identifier: &'static str, tracker: usize },
}

impl Group {
    /// Whether this group is the one that `entry` describes: it has that
    /// name, tracker and state, and its items are the entries below it, in
    /// order.
    pub open spec fn shows(self, entry: Entry) -> bool
        decreases self,
    {
        &&& entry matches Entry::Group { identifier, tracker, items, expanded }
        &&& self.identifier == identifier
        &&& self.tracker == tracker
        &&& self.expanded == expanded
        &&& self.items@.len() == items.len()
        &&& forall|index: int|
            0 <= index < self.items@.len() ==> (#[trigger] self.items@[index]).shows(items[index])
    }

    /// Whether `other` holds the same as this group, entry by entry.
    pub open spec fn alike(self, other: Group) -> bool
        decreases self,
    {
        &&& self.identifier == other.identifier
        &&& self.tracker == other.tracker
        &&& self.expanded == other.expanded
        &&& self.items@.len() == other.items@.len()
        &&& forall|index: int|
            0 <= index < self.items@.len() ==> (#[trigger] self.items@[index]).alike(
                other.items@[index],
            )
    }
}

impl InspectorItem {
    /// Whether this entry, with all below it, is the one that `entry`
    /// describes.
    pub open spec fn shows(self, entry: Entry) -> bool
        decreases self,
    {
        match self {
            InspectorItem::Group(group) => group.shows(entry),
            InspectorItem::Label(label) => entry == (Entry::Label {
                identifier: label.identifier,
                tracker: label.tracker,
            }),
        }
    }

    /// Whether `other` holds the same as this entry, and the same entries
    /// below it.
    pub open spec fn alike(self, other: InspectorItem) -> bool
        decreases self,
    {
        match self {
            InspectorItem::Group(group) => other matches InspectorItem::Group(twin) && group.alike(
                twin,
            ),
            InspectorItem::Label(label) => other == self,
        }
    }
}

impl Clone for Group {
    fn clone(&self) -> (result: Self)
        ensures
            self.alike(result),
        decreases self,
    {
        let mut items: Vec<InspectorItem> = Vec::new();
        let mut index: usize = 0;
        while index < self.items.len()
            invariant
                index <= self.items.len(),
                items@.len() == index,
                forall|earlier: int|
                    0 <= earlier < index ==> (#[trigger] self.items@[earlier]).alike(items@[earlier]),
            decreases self.items.len() - index,
        {
            items.push(self.items[index].clone());
            index += 1;
        }
        Group {
            identifier: self.identifier,
            tracker: self.tracker,
            items: items,
            expanded: self.expanded,
        }
    }
}

impl Clone for InspectorItem {
    fn clone(&self) -> (result: Self)
        ensures
            self.alike(result),
        decreases self,
    {
        match self {
            InspectorItem::Group(group) => InspectorItem::Group(group.clone()),
            InspectorItem::Label(label) => InspectorItem::Label(label.clone()),
        }
    }
}

} // verus!
