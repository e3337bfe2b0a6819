use vstd::prelude::*;

use crate::tags::has_all_tags_v;
use crate::tags::has_any_tags_v;
use crate::tags::has_tag_v;

verus! {

/// Mathematical view of a catalogue entry: id, name, tags and card count as
/// plain values.
pub ghost struct ListItemV {
    pub id: nat,
    pub name: Seq<char>,
    pub tags: Seq<Seq<char>>,
    pub num_of_cards: nat,
}

/// A denormalized summary of one study set kept in the catalogue: positional
/// id, the set's name, its tags and its card count. It mirrors the on-disk
/// study set and must be kept in sync by every mutation path.
#[derive(Debug)]
pub struct ListItem {
    item_id: usize,
    item_name: String,
    item_tags: Vec<String>,
    num_of_cards: usize,
}

impl View for ListItem {
    type V = ListItemV;

    closed spec fn view(&self) -> ListItemV {
        ListItemV {
            id: self.item_id as nat,
            name: self.item_name@,
            tags: self.item_tags.deep_view(),
            num_of_cards: self.num_of_cards as nat,
        }
    }
}

impl DeepView for ListItem {
    type V = ListItemV;

    open spec fn deep_view(&self) -> ListItemV {
        self.view()
    }
}

impl Clone for ListItem {
    fn clone(&self) -> (r: Self)
        ensures
            r@ == self@,
    {
        let r = ListItem {
            item_id: self.item_id,
            item_name: self.item_name.clone(),
            item_tags: self.item_tags.clone(),
            num_of_cards: self.num_of_cards,
        };
        proof {
            assert(r.item_tags.deep_view() =~= self.item_tags.deep_view());
        }
        r
    }
}

impl ListItem {
    pub fn new(id: usize, name: String, tags: Vec<String>, num: usize) -> (r: ListItem)
        ensures
            r@ == (ListItemV {
                id: id as nat,
                name: name@,
                tags: tags.deep_view(),
                num_of_cards: num as nat,
            }),
    {
        ListItem { item_id: id, item_name: name, item_tags: tags, num_of_cards: num }
    }

    pub fn get_id(&self) -> (r: usize)
        ensures
            r as nat == self@.id,
    {
        self.item_id
    }

    pub fn set_id(&mut self, id: usize)
        ensures
            final(self)@ == (ListItemV { id: id as nat, ..old(self)@ }),
    {
        self.item_id = id;
    }

    pub fn rename(&mut self, new_name: String)
        ensures
            final(self)@ == (ListItemV { name: new_name@, ..old(self)@ }),
    {
        self.item_name = new_name;
    }

    pub fn get_name(&self) -> (r: String)
        ensures
            r@ == self@.name,
    {
        self.item_name.clone()
    }

    pub fn get_all_tags(&self) -> (r: Vec<String>)
        ensures
            r.deep_view() == self@.tags,
    {
        let r = self.item_tags.clone();
        proof {
            assert(r.deep_view() =~= self@.tags);
        }
        r
    }

    pub fn get_num_of_cards(&self) -> (r: usize)
        ensures
            r as nat == self@.num_of_cards,
    {
        self.num_of_cards
    }

    pub fn has_tag(&self, tag: String) -> (r: bool)
        ensures
            r == has_tag_v(self@.tags, tag@),
    {
        let mut i: usize = 0;
        while i < self.item_tags.len()
            invariant
                i <= self@.tags.len(),
                self@.tags.len() == self.item_tags.len(),
                forall|j: int| 0 <= j < i ==> self@.tags[j] != tag@,
            decreases self.item_tags.len() - i,
        {
            if self.item_tags[i] == tag {
                assert(self@.tags[i as int] == tag@);
                return true;
            }
            i = i + 1;
        }
        false
    }

    /// OR query: true when some query tag occurs among the item's tags; an
    /// empty query matches nothing.
    pub fn has_any_tags(&self, tags: &Vec<String>) -> (r: bool)
        ensures
            r == has_any_tags_v(self@.tags, tags.deep_view()),
    {
        let mut i: usize = 0;
        while i < tags.len()
            invariant
                i <= tags.len(),
                forall|j: int| 0 <= j < i ==> !self@.tags.contains(tags.deep_view()[j]),
            decreases tags.len() - i,
        {
            if self.has_tag(tags[i].clone()) {
                assert(self@.tags.contains(tags.deep_view()[i as int]));
                return true;
            }
            i = i + 1;
        }
        false
    }

    /// AND query: true when every query tag occurs among the item's tags; an
    /// empty query matches everything.
    pub fn has_all_tags(&self, tags: &Vec<String>) -> (r: bool)
        ensures
            r == has_all_tags_v(self@.tags, tags.deep_view()),
    {
        let mut i: usize = 0;
        while i < tags.len()
            invariant
                i <= tags.len(),
                forall|j: int| 0 <= j < i ==> self@.tags.contains(tags.deep_view()[j]),
            decreases tags.len() - i,
        {
            if !self.has_tag(tags[i].clone()) {
                assert(!self@.tags.contains(tags.deep_view()[i as int]));
                return false;
            }
            i = i + 1;
        }
        true
    }
}

/// The id and the card count held in a `ListItem` always fit in `usize`.
pub proof fn lemma_list_item_bounded(item: &ListItem)
    ensures
        item@.id <= usize::MAX,
        item@.num_of_cards <= usize::MAX,
{
}

} // verus!
