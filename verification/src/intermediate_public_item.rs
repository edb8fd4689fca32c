use crate::model::Item;
use vstd::prelude::*;

verus! {

/// One public item of a crate in intermediate form: the item itself and, for
/// renamed imports, the name that overrides the item's own name.
pub struct IntermediatePublicItem<'c> {
    pub item: &'c Item,
    pub overridden_name: Option<String>,
}

/// The view of an optional string: its characters, if present.
pub open spec fn opt_str_view(o: Option<String>) -> Option<Seq<char>> {
    match o {
        Some(s) => Some(s@),
        None => None,
    }
}

/// The name under which an item appears: the overriding name if there is one,
/// else the item's own name.
pub open spec fn effective_name(overridden: Option<Seq<char>>, item: Item) -> Option<Seq<char>> {
    match overridden {
        Some(n) => Some(n),
        None => opt_str_view(item.name),
    }
}

/// A path element as a value: the item and its overriding name.
pub struct PathElem {
    pub item: Item,
    pub overridden_name: Option<Seq<char>>,
}

impl<'c> View for IntermediatePublicItem<'c> {
    type V = PathElem;

    open spec fn view(&self) -> PathElem {
        PathElem { item: *self.item, overridden_name: opt_str_view(self.overridden_name) }
    }
}

/// Copies an optional string.
fn clone_opt_string(o: &Option<String>) -> (res: Option<String>)
    ensures
        res == *o,
{
    match o {
        Some(s) => Some(s.clone()),
        None => None,
    }
}

impl<'c> IntermediatePublicItem<'c> {
    /// The name of the item: the overriding name if there is one, else the
    /// item's own name.
    pub fn name(&self) -> (res: Option<&str>)
        ensures
            match res {
                Some(s) => effective_name(self@.overridden_name, *self.item) == Some(s@),
                None => effective_name(self@.overridden_name, *self.item) is None,
            },
    {
        match &self.overridden_name {
            Some(s) => Some(s.as_str()),
            None => match &self.item.name {
                Some(s) => Some(s.as_str()),
                None => None,
            },
        }
    }

    /// A copy of this path element.
    pub fn duplicate(&self) -> (res: IntermediatePublicItem<'c>)
        ensures
            res == *self,
    {
        IntermediatePublicItem { item: self.item, overridden_name: clone_opt_string(&self.overridden_name) }
    }
}

} // verus!
