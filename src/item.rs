use vstd::prelude::*;

verus! {

/// What an item is to the rules: its name and its description.
pub struct ItemView {
    pub name: Seq<char>,
    pub description: Seq<char>,
}

/// A named, described object that lies in a room or is carried. It does
/// not change once made.
#[derive(Debug)]
pub struct Item {
    pub(crate) name: String,
    pub(crate) description: String,
}

impl View for Item {
    type V = ItemView;

    open(crate) spec fn view(&self) -> ItemView {
        ItemView { name: self.name@, description: self.description@ }
    }
}

impl Item {
    pub fn new(name: &str, description: &str) -> (r: Item)
        requires
            name@.len() > 0,
        ensures
            r@ == (ItemView { name: name@, description: description@ }),
    {
        Item { name: String::from_str(name), description: String::from_str(description) }
    }

    pub fn name(&self) -> (r: &str)
        ensures
            r@ == self@.name,
    {
        self.name.as_str()
    }

    pub fn description(&self) -> (r: &str)
        ensures
            r@ == self@.description,
    {
        self.description.as_str()
    }
}

} // verus!
