use vstd::prelude::*;

use crate::list_item::ListItem;
use crate::list_item::ListItemV;
use crate::storage::Storage;
use crate::storage::StorageError;
use crate::study_set::StudySet;
use crate::study_set::StudySetV;
use crate::tags::has_all_tags_v;
use crate::tags::has_any_tags_v;

verus! {

/// Tags of all items folded left to right, keeping only the first occurrence
/// of each tag: the union in first-seen order.
pub open spec fn collect_tags(acc: Seq<Seq<char>>, items: Seq<ListItemV>) -> Seq<Seq<char>>
    decreases items.len(),
{
    if items.len() == 0 {
        acc
    } else {
        collect_tags(push_new_tags(acc, items[0].tags), items.drop_first())
    }
}

/// One item's tags appended to `acc`, skipping the ones already present.
pub open spec fn push_new_tags(acc: Seq<Seq<char>>, tags: Seq<Seq<char>>) -> Seq<Seq<char>>
    decreases tags.len(),
{
    if tags.len() == 0 {
        acc
    } else {
        let next = if acc.contains(tags[0]) {
            acc
        } else {
            acc.push(tags[0])
        };
        push_new_tags(next, tags.drop_first())
    }
}

/// No tag occurs twice.
pub open spec fn distinct_seqs(s: Seq<Seq<char>>) -> bool {
    forall|p: int, q: int| 0 <= p < q < s.len() ==> s[p] != s[q]
}

proof fn lemma_seq_push_contains<A>(s: Seq<A>, e: A, t: A)
    ensures
        s.push(e).contains(t) <==> (s.contains(t) || t == e),
{
    if s.push(e).contains(t) {
        let i = choose|i: int| 0 <= i < s.push(e).len() && s.push(e)[i] == t;
        if i < s.len() {
            assert(s[i] == t);
        }
    }
    if s.contains(t) {
        let i = choose|i: int| 0 <= i < s.len() && s[i] == t;
        assert(s.push(e)[i] == t);
    }
    if t == e {
        assert(s.push(e)[s.len() as int] == t);
    }
}

proof fn lemma_seq_head_contains<A>(s: Seq<A>, t: A)
    requires
        s.len() > 0,
    ensures
        s.contains(t) <==> (s[0] == t || s.drop_first().contains(t)),
{
    if s.contains(t) {
        let i = choose|i: int| 0 <= i < s.len() && s[i] == t;
        if i > 0 {
            assert(s.drop_first()[i - 1] == t);
        }
    }
    if s.drop_first().contains(t) {
        let i = choose|i: int| 0 <= i < s.drop_first().len() && s.drop_first()[i] == t;
        assert(s[i + 1] == t);
    }
}

/// `push_new_tags` adds exactly the missing tags and never introduces a
/// duplicate.
pub proof fn lemma_push_new_tags_props(acc: Seq<Seq<char>>, tags: Seq<Seq<char>>)
    ensures
        forall|t: Seq<char>|
            push_new_tags(acc, tags).contains(t) <==> acc.contains(t) || tags.contains(t),
        distinct_seqs(acc) ==> distinct_seqs(push_new_tags(acc, tags)),
    decreases tags.len(),
{
    if tags.len() == 0 {
        assert forall|t: Seq<char>|
            push_new_tags(acc, tags).contains(t) <==> acc.contains(t) || tags.contains(
                t,
            ) by {
            if tags.contains(t) {
                let i = choose|i: int| 0 <= i < tags.len() && tags[i] == t;
            }
        }
    } else {
        let next = if acc.contains(tags[0]) {
            acc
        } else {
            acc.push(tags[0])
        };
        lemma_push_new_tags_props(next, tags.drop_first());
        assert forall|t: Seq<char>|
            push_new_tags(acc, tags).contains(t) <==> acc.contains(t) || tags.contains(
                t,
            ) by {
            lemma_seq_push_contains(acc, tags[0], t);
            lemma_seq_head_contains(tags, t);
        }
        if distinct_seqs(acc) {
            assert(distinct_seqs(next)) by {
                if !acc.contains(tags[0]) {
                    assert forall|p: int, q: int|
                        0 <= p < q < next.len() implies next[p] != next[q] by {
                        if q == acc.len() {
                            assert(acc[p] == next[p]);
                            if acc[p] == tags[0] {
                                assert(acc.contains(tags[0]));
                            }
                        }
                    }
                }
            }
        }
    }
}

/// `collect_tags` holds exactly the tags of the items (plus the accumulator)
/// and never introduces a duplicate.
pub proof fn lemma_collect_tags_props(acc: Seq<Seq<char>>, items: Seq<ListItemV>)
    ensures
        forall|t: Seq<char>|
            collect_tags(acc, items).contains(t) <==> acc.contains(t) || (exists|i: int|
                0 <= i < items.len() && #[trigger] items[i].tags.contains(t)),
        distinct_seqs(acc) ==> distinct_seqs(collect_tags(acc, items)),
    decreases items.len(),
{
    if items.len() == 0 {
    } else {
        let next = push_new_tags(acc, items[0].tags);
        lemma_push_new_tags_props(acc, items[0].tags);
        lemma_collect_tags_props(next, items.drop_first());
        assert forall|t: Seq<char>|
            collect_tags(acc, items).contains(t) <==> acc.contains(t) || (exists|i: int|
                0 <= i < items.len() && #[trigger] items[i].tags.contains(t)) by {
            if collect_tags(acc, items).contains(t) {
                if !acc.contains(t) {
                    if next.contains(t) {
                        assert(items[0].tags.contains(t));
                    } else {
                        let i = choose|i: int|
                            0 <= i < items.drop_first().len()
                                && #[trigger] items.drop_first()[i].tags.contains(t);
                        assert(items[i + 1].tags.contains(t));
                    }
                }
            }
            if exists|i: int| 0 <= i < items.len() && #[trigger] items[i].tags.contains(t) {
                let i = choose|i: int| 0 <= i < items.len() && #[trigger] items[i].tags.contains(t);
                if i == 0 {
                    assert(next.contains(t));
                } else {
                    assert(items.drop_first()[i - 1].tags.contains(t));
                }
            }
        }
    }
}

/// The tag-query filter that `get_items_by_tags` applies to one item.
pub open spec fn tag_query_matches(item: ListItemV, query: Seq<Seq<char>>, any: bool) -> bool {
    if any {
        has_any_tags_v(item.tags, query)
    } else {
        has_all_tags_v(item.tags, query)
    }
}

/// The in-memory index of every study set: an ordered sequence of summaries,
/// one per set, persisted as a whole in the inventory file. Item ids are
/// positional: deletion renumbers every remaining item.
#[derive(Debug)]
pub struct Catalogue {
    inventory: Vec<ListItem>,
}

impl View for Catalogue {
    type V = Seq<ListItemV>;

    closed spec fn view(&self) -> Seq<ListItemV> {
        self.inventory.deep_view()
    }
}

impl DeepView for Catalogue {
    type V = Seq<ListItemV>;

    open spec fn deep_view(&self) -> Seq<ListItemV> {
        self.view()
    }
}

impl Clone for Catalogue {
    fn clone(&self) -> (r: Self)
        ensures
            r@ == self@,
    {
        let r = Catalogue { inventory: self.inventory.clone() };
        proof {
            assert(r.inventory.deep_view() =~= self.inventory.deep_view());
        }
        r
    }
}

/// The ids and card counts held in a real `Catalogue` always fit in `usize`.
pub proof fn lemma_view_items_bounded(c: &Catalogue)
    ensures
        forall|k: int|
            0 <= k < c@.len() ==> #[trigger] c@[k].id <= usize::MAX && c@[k].num_of_cards
                <= usize::MAX,
{
    assert forall|k: int|
        0 <= k < c@.len() implies #[trigger] c@[k].id <= usize::MAX && c@[k].num_of_cards
        <= usize::MAX by {
        assert(c@[k] == c.inventory@[k]@);
        crate::list_item::lemma_list_item_bounded(&c.inventory@[k]);
    }
}

/// Ids are positional: the item at position i carries id i. Every freshly
/// built catalogue has this shape, and deletion restores it.
pub open spec fn ids_positional(items: Seq<ListItemV>) -> bool {
    forall|i: int| 0 <= i < items.len() ==> items[i].id == i
}

impl Catalogue {
    pub fn new() -> (r: Catalogue)
        ensures
            r@ == Seq::<ListItemV>::empty(),
    {
        let r = Catalogue { inventory: Vec::new() };
        proof {
            assert(r.inventory.deep_view() =~= Seq::<ListItemV>::empty());
        }
        r
    }

    /// A catalogue holding exactly the given items, in order.
    pub fn from_items(items: Vec<ListItem>) -> (r: Catalogue)
        ensures
            r@ == items.deep_view(),
    {
        Catalogue { inventory: items }
    }

    pub fn get_inventory(&self) -> (r: Vec<ListItem>)
        ensures
            r.deep_view() == self@,
    {
        let r = self.inventory.clone();
        proof {
            assert(r.deep_view() =~= self@);
        }
        r
    }

    pub fn get_num_of_items(&self) -> (r: usize)
        ensures
            r == self@.len(),
    {
        self.inventory.len()
    }

    pub fn get_all_names(&self) -> (r: Vec<String>)
        ensures
            r.deep_view().len() == self@.len(),
            forall|i: int| 0 <= i < self@.len() ==> r.deep_view()[i] == self@[i].name,
    {
        let mut res: Vec<String> = Vec::new();
        let mut i: usize = 0;
        while i < self.inventory.len()
            invariant
                i <= self@.len(),
                self@.len() == self.inventory.len(),
                res.deep_view().len() == i,
                forall|j: int| 0 <= j < i ==> res.deep_view()[j] == self@[j].name,
            decreases self.inventory.len() - i,
        {
            let ghost prev = res.deep_view();
            res.push(self.inventory[i].get_name());
            proof {
                assert(res.deep_view() =~= prev.push(self@[i as int].name));
            }
            i = i + 1;
        }
        res
    }

    /// Union of all items' tags, in first-seen order, without duplicates.
    pub fn get_all_tags(&self) -> (r: Vec<String>)
        ensures
            r.deep_view() == collect_tags(Seq::<Seq<char>>::empty(), self@),
            forall|t: Seq<char>|
                r.deep_view().contains(t) <==> exists|i: int|
                    0 <= i < self@.len() && #[trigger] self@[i].tags.contains(t),
            distinct_seqs(r.deep_view()),
    {
        let mut res: Vec<String> = Vec::new();
        proof {
            assert(self@.skip(0) =~= self@);
            assert(res.deep_view() =~= Seq::<Seq<char>>::empty());
        }
        let mut i: usize = 0;
        while i < self.inventory.len()
            invariant
                i <= self@.len(),
                self@.len() == self.inventory.len(),
                collect_tags(res.deep_view(), self@.skip(i as int)) == collect_tags(
                    Seq::<Seq<char>>::empty(),
                    self@,
                ),
            decreases self.inventory.len() - i,
        {
            let item_tags = self.inventory[i].get_all_tags();
            let ghost before = res.deep_view();
            proof {
                assert(item_tags.deep_view().skip(0) =~= item_tags.deep_view());
            }
            let mut k: usize = 0;
            while k < item_tags.len()
                invariant
                    k <= item_tags.deep_view().len(),
                    item_tags.deep_view() == self@[i as int].tags,
                    0 <= i < self@.len(),
                    push_new_tags(res.deep_view(), item_tags.deep_view().skip(k as int))
                        == push_new_tags(before, item_tags.deep_view()),
                decreases item_tags.len() - k,
            {
                let ghost prev = res.deep_view();
                let ghost rest = item_tags.deep_view().skip(k as int);
                proof {
                    assert(rest[0] == item_tags.deep_view()[k as int]);
                    assert(rest.drop_first() =~= item_tags.deep_view().skip(k + 1 as int));
                }
                let tag = item_tags[k].clone();
                if !contains_string(&res, &tag) {
                    res.push(tag);
                    proof {
                        assert(res.deep_view() =~= prev.push(item_tags.deep_view()[k as int]));
                    }
                } else {
                    proof {
                        assert(res.deep_view() =~= prev);
                    }
                }
                k = k + 1;
            }
            proof {
                assert(item_tags.deep_view().skip(item_tags.deep_view().len() as int)
                    =~= Seq::<Seq<char>>::empty());
                let tail = self@.skip(i as int);
                assert(tail[0] == self@[i as int]);
                assert(tail.drop_first() =~= self@.skip(i + 1 as int));
            }
            i = i + 1;
        }
        proof {
            assert(self@.skip(self@.len() as int) =~= Seq::<ListItemV>::empty());
            assert(collect_tags(res.deep_view(), self@.skip(self@.len() as int))
                == res.deep_view());
            assert(res.deep_view() == collect_tags(Seq::<Seq<char>>::empty(), self@));
            lemma_collect_tags_props(Seq::<Seq<char>>::empty(), self@);
            assert(!Seq::<Seq<char>>::empty().contains(Seq::<char>::empty()));
            assert forall|t: Seq<char>|
                res.deep_view().contains(t) <==> exists|i: int|
                    0 <= i < self@.len() && #[trigger] self@[i].tags.contains(t) by {
                assert(!Seq::<Seq<char>>::empty().contains(t));
                assert(collect_tags(Seq::<Seq<char>>::empty(), self@).contains(t)
                    <==> Seq::<Seq<char>>::empty().contains(t) || (exists|i: int|
                    0 <= i < self@.len() && #[trigger] self@[i].tags.contains(t)));
            }
        }
        res
    }

    /// Linear filter over all items, original order preserved: OR semantics
    /// when `is_match_any` is set, AND semantics otherwise.
    pub fn get_items_by_tags(&self, tags: Vec<String>, is_match_any: bool) -> (r: Vec<ListItem>)
        ensures
            r.deep_view() == self@.filter(
                |item: ListItemV| tag_query_matches(item, tags.deep_view(), is_match_any),
            ),
    {
        let ghost pred = |item: ListItemV|
            tag_query_matches(item, tags.deep_view(), is_match_any);
        let mut res: Vec<ListItem> = Vec::new();
        let mut i: usize = 0;
        while i < self.inventory.len()
            invariant
                i <= self@.len(),
                self@.len() == self.inventory.len(),
                pred == (|item: ListItemV|
                    tag_query_matches(item, tags.deep_view(), is_match_any)),
                res.deep_view() == self@.subrange(0, i as int).filter(pred),
            decreases self.inventory.len() - i,
        {
            let item = &self.inventory[i];
            let keep = if is_match_any {
                item.has_any_tags(&tags)
            } else {
                item.has_all_tags(&tags)
            };
            let ghost prev = res.deep_view();
            if keep {
                res.push(item.clone());
                proof {
                    assert(res.deep_view() =~= prev.push(self@[i as int]));
                }
            }
            proof {
                let sub = self@.subrange(0, i as int);
                let sub1 = self@.subrange(0, i + 1 as int);
                assert(sub1.drop_last() =~= sub);
                assert(sub1.last() == self@[i as int]);
                reveal_with_fuel(Seq::filter, 2);
                assert(sub1.filter(pred) == if pred(self@[i as int]) {
                    sub.filter(pred).push(self@[i as int])
                } else {
                    sub.filter(pred)
                });
            }
            i = i + 1;
        }
        proof {
            assert(self@.subrange(0, self@.len() as int) =~= self@);
        }
        res
    }

    /// Items with no tags at all, original order preserved.
    pub fn get_all_untagged_study_sets(&self) -> (r: Vec<ListItem>)
        ensures
            r.deep_view() == self@.filter(|item: ListItemV| item.tags.len() == 0),
    {
        let ghost pred = |item: ListItemV| item.tags.len() == 0;
        let mut res: Vec<ListItem> = Vec::new();
        let mut i: usize = 0;
        while i < self.inventory.len()
            invariant
                i <= self@.len(),
                self@.len() == self.inventory.len(),
                pred == (|item: ListItemV| item.tags.len() == 0),
                res.deep_view() == self@.subrange(0, i as int).filter(pred),
            decreases self.inventory.len() - i,
        {
            let item = &self.inventory[i];
            let item_tags = item.get_all_tags();
            let ghost prev = res.deep_view();
            if item_tags.len() == 0 {
                proof {
                    assert(self@[i as int].tags.len() == 0);
                }
                res.push(item.clone());
                proof {
                    assert(res.deep_view() =~= prev.push(self@[i as int]));
                }
            } else {
                proof {
                    assert(self@[i as int].tags.len() != 0);
                }
            }
            proof {
                let sub = self@.subrange(0, i as int);
                let sub1 = self@.subrange(0, i + 1 as int);
                assert(sub1.drop_last() =~= sub);
                assert(sub1.last() == self@[i as int]);
                reveal_with_fuel(Seq::filter, 2);
                assert(sub1.filter(pred) == if pred(self@[i as int]) {
                    sub.filter(pred).push(self@[i as int])
                } else {
                    sub.filter(pred)
                });
            }
            i = i + 1;
        }
        proof {
            assert(self@.subrange(0, self@.len() as int) =~= self@);
        }
        res
    }

    /// A vector holding the first item whose id matches, or empty when none
    /// does.
    pub fn get_item_by_id(&self, id: usize) -> (r: Vec<ListItem>)
        ensures
            (forall|i: int| 0 <= i < self@.len() ==> self@[i].id != id as nat) ==> r.deep_view()
                =~= Seq::<ListItemV>::empty(),
            (exists|i: int| 0 <= i < self@.len() && self@[i].id == id as nat) ==> {
                exists|i: int|
                    {
                        &&& 0 <= i < self@.len()
                        &&& #[trigger] self@[i].id == id as nat
                        &&& (forall|j: int| 0 <= j < i ==> self@[j].id != id as nat)
                        &&& r.deep_view() =~= seq![self@[i]]
                    }
            },
    {
        let mut res: Vec<ListItem> = Vec::new();
        let mut i: usize = 0;
        while i < self.inventory.len()
            invariant
                i <= self@.len(),
                self@.len() == self.inventory.len(),
                res.deep_view() =~= Seq::<ListItemV>::empty(),
                forall|j: int| 0 <= j < i ==> self@[j].id != id as nat,
            decreases self.inventory.len() - i,
        {
            let item = &self.inventory[i];
            if item.get_id() == id {
                let ghost prev = res.deep_view();
                res.push(item.clone());
                proof {
                    assert(res.deep_view() =~= prev.push(self@[i as int]));
                    assert(res.deep_view() =~= seq![self@[i as int]]);
                }
                return res;
            }
            i = i + 1;
        }
        res
    }
}

/// Position of the first item carrying `id`, or -1 when none does.
pub open spec fn first_idx_with_id(items: Seq<ListItemV>, id: nat) -> int
    decreases items.len(),
{
    if items.len() == 0 {
        -1
    } else if items[0].id == id {
        0
    } else {
        let r = first_idx_with_id(items.drop_first(), id);
        if r == -1 {
            -1
        } else {
            r + 1
        }
    }
}

proof fn lemma_first_idx_from_scan(items: Seq<ListItemV>, id: nat, i: int)
    requires
        0 <= i < items.len(),
        items[i].id == id,
        forall|j: int| 0 <= j < i ==> items[j].id != id,
    ensures
        first_idx_with_id(items, id) == i,
    decreases i,
{
    if i == 0 {
    } else {
        assert(items[0].id != id);
        assert(items.drop_first()[i - 1] == items[i]);
        assert forall|j: int| 0 <= j < i - 1 implies items.drop_first()[j].id != id by {
            assert(items.drop_first()[j] == items[j + 1]);
        }
        lemma_first_idx_from_scan(items.drop_first(), id, i - 1);
    }
}

proof fn lemma_first_idx_none(items: Seq<ListItemV>, id: nat)
    requires
        forall|j: int| 0 <= j < items.len() ==> items[j].id != id,
    ensures
        first_idx_with_id(items, id) == -1,
    decreases items.len(),
{
    if items.len() > 0 {
        assert forall|j: int| 0 <= j < items.drop_first().len() implies items.drop_first()[j].id
            != id by {
            assert(items.drop_first()[j] == items[j + 1]);
        }
        lemma_first_idx_none(items.drop_first(), id);
    }
}

/// The summary that `update_set` writes at position `fi` for set `s`.
pub open spec fn updated_item(fi: int, s: StudySetV) -> ListItemV {
    ListItemV { id: fi as nat, name: s.name, tags: s.tags, num_of_cards: s.cards.len() }
}

/// The items that survive deleting id `id`, in original relative order.
pub open spec fn kept_items(items: Seq<ListItemV>, id: nat) -> Seq<ListItemV> {
    items.filter(|it: ListItemV| it.id != id)
}

/// Every item's id rewritten to its position; nothing else changes.
pub open spec fn renumber_items(items: Seq<ListItemV>) -> Seq<ListItemV> {
    Seq::new(
        items.len(),
        |i: int|
            ListItemV {
                id: i as nat,
                name: items[i].name,
                tags: items[i].tags,
                num_of_cards: items[i].num_of_cards,
            },
    )
}

/// Names of the items carrying `id` among the first `k` items.
pub open spec fn matching_names_upto(items: Seq<ListItemV>, id: nat, k: int) -> Set<Seq<char>> {
    Set::new(|n: Seq<char>| exists|i: int| 0 <= i < k && items[i].id == id && items[i].name == n)
}

/// Names of all items carrying `id`.
pub open spec fn matching_names(items: Seq<ListItemV>, id: nat) -> Set<Seq<char>> {
    matching_names_upto(items, id, items.len() as int)
}

/// Some item carrying `id` has no backing file in `files`: the condition on
/// which a deletion is refused.
pub open spec fn some_match_missing(
    items: Seq<ListItemV>,
    id: nat,
    files: Map<Seq<char>, StudySetV>,
) -> bool {
    exists|i: int|
        0 <= i < items.len() && #[trigger] items[i].id == id && !files.contains_key(items[i].name)
}

proof fn lemma_filter_keeps_all(s: Seq<ListItemV>, pred: spec_fn(ListItemV) -> bool)
    requires
        forall|i: int| 0 <= i < s.len() ==> pred(s[i]),
    ensures
        s.filter(pred) == s,
    decreases s.len(),
{
    reveal_with_fuel(Seq::filter, 2);
    if s.len() > 0 {
        assert forall|i: int| 0 <= i < s.drop_last().len() implies pred(s.drop_last()[i]) by {
            assert(s.drop_last()[i] == s[i]);
        }
        lemma_filter_keeps_all(s.drop_last(), pred);
        assert(pred(s.last()));
        assert(s.drop_last().push(s.last()) =~= s);
    }
}

proof fn lemma_kept_positional(items: Seq<ListItemV>, p: int)
    requires
        ids_positional(items),
        0 <= p < items.len(),
    ensures
        kept_items(items, p as nat).len() == items.len() - 1,
        forall|j: int| 0 <= j < p ==> #[trigger] kept_items(items, p as nat)[j] == items[j],
        forall|j: int|
            p <= j < items.len() - 1 ==> #[trigger] kept_items(items, p as nat)[j] == items[j
                + 1],
    decreases items.len(),
{
    reveal_with_fuel(Seq::filter, 2);
    let pred = |it: ListItemV| it.id != p as nat;
    if p == items.len() - 1 {
        assert(!pred(items.last()));
        assert(items.filter(pred) == items.drop_last().filter(pred));
        assert forall|i: int| 0 <= i < items.drop_last().len() implies pred(
            items.drop_last()[i],
        ) by {
            assert(items.drop_last()[i] == items[i]);
        }
        lemma_filter_keeps_all(items.drop_last(), pred);
        assert forall|j: int| 0 <= j < p implies kept_items(items, p as nat)[j] == items[j] by {
            assert(items.drop_last()[j] == items[j]);
        }
    } else {
        assert(pred(items.last()));
        assert(items.filter(pred) == items.drop_last().filter(pred).push(items.last()));
        assert(ids_positional(items.drop_last())) by {
            assert forall|i: int| 0 <= i < items.drop_last().len() implies items.drop_last()[i].id
                == i by {
                assert(items.drop_last()[i] == items[i]);
            }
        }
        lemma_kept_positional(items.drop_last(), p);
        assert forall|j: int| 0 <= j < p implies kept_items(items, p as nat)[j] == items[j] by {
            assert(kept_items(items.drop_last(), p as nat)[j] == items.drop_last()[j]);
            assert(items.drop_last()[j] == items[j]);
        }
        assert forall|j: int|
            p <= j < items.len() - 1 implies #[trigger] kept_items(items, p as nat)[j] == items[j
            + 1] by {
            if j < items.len() - 2 {
                assert(kept_items(items.drop_last(), p as nat)[j] == items.drop_last()[j + 1]);
                assert(items.drop_last()[j + 1] == items[j + 1]);
            } else {
                assert(kept_items(items, p as nat)[j] == items.last());
            }
        }
    }
}

/// Deletion renumbering law: deleting the catalogue item at position p from a
/// positionally numbered catalogue of N items yields N-1 items whose ids are
/// again 0..N-2, in original relative order, each keeping its name, tags and
/// card count.
pub proof fn lemma_delete_renumbers(items: Seq<ListItemV>, p: int)
    requires
        ids_positional(items),
        0 <= p < items.len(),
    ensures
        renumber_items(kept_items(items, p as nat)).len() == items.len() - 1,
        ids_positional(renumber_items(kept_items(items, p as nat))),
        forall|j: int|
            0 <= j < p ==> #[trigger] renumber_items(kept_items(items, p as nat))[j] == (ListItemV {
                id: j as nat,
                ..items[j]
            }),
        forall|j: int|
            p <= j < items.len() - 1 ==> #[trigger] renumber_items(kept_items(items, p as nat))[j]
                == (ListItemV { id: j as nat, ..items[j + 1] }),
{
    lemma_kept_positional(items, p);
}

proof fn lemma_renumber_push(s: Seq<ListItemV>, e: ListItemV)
    ensures
        renumber_items(s.push(e)) == renumber_items(s).push(
            ListItemV { id: s.len() as nat, name: e.name, tags: e.tags, num_of_cards: e.num_of_cards },
        ),
{
    assert(renumber_items(s.push(e)) =~= renumber_items(s).push(
        ListItemV { id: s.len() as nat, name: e.name, tags: e.tags, num_of_cards: e.num_of_cards },
    ));
}

impl Catalogue {
    /// Position of the first item carrying `id`, when there is one.
    fn find_item_index(&self, id: usize) -> (r: Option<usize>)
        ensures
            match r {
                Some(i) => i < self@.len() && first_idx_with_id(self@, id as nat) == i,
                None => first_idx_with_id(self@, id as nat) == -1,
            },
    {
        let mut i: usize = 0;
        while i < self.inventory.len()
            invariant
                i <= self@.len(),
                self@.len() == self.inventory.len(),
                forall|j: int| 0 <= j < i ==> self@[j].id != id as nat,
            decreases self.inventory.len() - i,
        {
            if self.inventory[i].get_id() == id {
                proof {
                    lemma_first_idx_from_scan(self@, id as nat, i as int);
                }
                return Some(i);
            }
            i = i + 1;
        }
        proof {
            lemma_first_idx_none(self@, id as nat);
        }
        None
    }

    /// Locate the first item carrying `set_id`, rename the backing set file
    /// when the set's name changed, rewrite the set file with the full new
    /// contents, and replace the summary in place (its id becomes its
    /// position). A missing item leaves everything unchanged. A failed store
    /// operation is reported and leaves the catalogue and the store
    /// unchanged.
    pub fn update_set(&mut self, store: &mut Storage, set_id: usize, updated_set: StudySet) -> (r:
        Result<(), StorageError>)
        ensures
            final(store)@.inventory == old(store)@.inventory,
            first_idx_with_id(old(self)@, set_id as nat) == -1 ==> r == Ok::<(), StorageError>(())
                && final(self)@ == old(self)@ && final(store)@ == old(store)@,
            first_idx_with_id(old(self)@, set_id as nat) >= 0 ==> ({
                let fi = first_idx_with_id(old(self)@, set_id as nat);
                let oname = old(self)@[fi].name;
                let nm = updated_set@.name;
                let files0 = old(store)@.files;
                let unchanged = final(self)@ == old(self)@ && final(store)@ == old(store)@;
                let replaced = final(self)@ == old(self)@.update(
                    fi,
                    updated_item(fi, updated_set@),
                );
                &&& (oname != nm && !files0.contains_key(oname) ==> r == Err::<(), StorageError>(
                    StorageError::NotFound,
                ) && unchanged)
                &&& (oname != nm && files0.contains_key(oname) && files0.contains_key(nm) ==> r
                    == Err::<(), StorageError>(StorageError::AlreadyExists) && unchanged)
                &&& (oname != nm && files0.contains_key(oname) && !files0.contains_key(nm) ==> r
                    == Ok::<(), StorageError>(()) && final(store)@.files == files0.remove(
                    oname,
                ).insert(nm, updated_set@) && replaced)
                &&& (oname == nm && !files0.contains_key(nm) ==> r == Err::<(), StorageError>(
                    StorageError::NotFound,
                ) && unchanged)
                &&& (oname == nm && files0.contains_key(nm) ==> r == Ok::<(), StorageError>(())
                    && final(store)@.files == files0.insert(nm, updated_set@) && replaced)
            }),
    {
        let i = match self.find_item_index(set_id) {
            Some(i) => i,
            None => {
                return Ok(());
            },
        };
        let old_name = self.inventory[i].get_name();
        let new_name = updated_set.get_set_name();
        if old_name != new_name {
            match store.rename_set_file(old_name, new_name.clone()) {
                Ok(_) => {},
                Err(e) => {
                    return Err(e);
                },
            }
        }
        match store.update_set_file(&updated_set) {
            Ok(_) => {},
            Err(e) => {
                return Err(e);
            },
        }
        let tags = updated_set.get_all_tags();
        let num = updated_set.get_num_of_cards();
        let item = ListItem::new(i, new_name, tags, num);
        self.inventory.set(i, item);
        proof {
            assert(self.inventory.deep_view() =~= old(self)@.update(
                i as int,
                updated_item(i as int, updated_set@),
            ));
        }
        Ok(())
    }

    /// Append a summary for `study_set` under `item_id` and create the
    /// backing set file (truncating any file already stored under that name).
    pub fn add_study_set(&mut self, store: &mut Storage, study_set: StudySet, item_id: usize)
        ensures
            final(self)@ == old(self)@.push(
                ListItemV {
                    id: item_id as nat,
                    name: study_set@.name,
                    tags: study_set@.tags,
                    num_of_cards: study_set@.cards.len(),
                },
            ),
            final(store)@.files == old(store)@.files.insert(study_set@.name, study_set@),
            final(store)@.inventory == old(store)@.inventory,
    {
        let name = study_set.get_set_name();
        let tags = study_set.get_all_tags();
        let num = study_set.get_num_of_cards();
        let item = ListItem::new(item_id, name, tags, num);
        self.inventory.push(item);
        proof {
            assert(self.inventory.deep_view() =~= old(self)@.push(
                ListItemV {
                    id: item_id as nat,
                    name: study_set@.name,
                    tags: study_set@.tags,
                    num_of_cards: study_set@.cards.len(),
                },
            ));
        }
        store.create_set_file(&study_set);
    }

    /// Remove every item carrying `id`, delete the backing file of each,
    /// and renumber the remaining items so that ids again equal positions.
    /// When some matching item has no backing file, nothing changes and the
    /// missing file is reported.
    pub fn delete_item_by_id(&mut self, store: &mut Storage, id: usize) -> (r: Result<
        (),
        StorageError,
    >)
        ensures
            final(store)@.inventory == old(store)@.inventory,
            some_match_missing(old(self)@, id as nat, old(store)@.files) ==> r == Err::<
                (),
                StorageError,
            >(StorageError::NotFound) && final(self)@ == old(self)@ && final(store)@ == old(store)@,
            !some_match_missing(old(self)@, id as nat, old(store)@.files) ==> r == Ok::<
                (),
                StorageError,
            >(()) && final(self)@ == renumber_items(kept_items(old(self)@, id as nat))
                && final(store)@.files == old(store)@.files.remove_keys(
                matching_names(old(self)@, id as nat),
            ),
    {
        let mut j: usize = 0;
        while j < self.inventory.len()
            invariant
                j <= self@.len(),
                self@.len() == self.inventory.len(),
                self@ == old(self)@,
                store@ == old(store)@,
                forall|t: int|
                    0 <= t < j ==> (#[trigger] self@[t].id == id as nat
                        ==> old(store)@.files.contains_key(self@[t].name)),
            decreases self.inventory.len() - j,
        {
            if self.inventory[j].get_id() == id {
                let nm = self.inventory[j].get_name();
                if !store.has_set_file(&nm) {
                    proof {
                        assert(old(self)@[j as int].id == id as nat
                            && !old(store)@.files.contains_key(old(self)@[j as int].name));
                        assert(some_match_missing(old(self)@, id as nat, old(store)@.files));
                    }
                    return Err(StorageError::NotFound);
                }
            }
            j = j + 1;
        }
        let ghost items0 = self@;
        let ghost pred = |it: ListItemV| it.id != id as nat;
        let mut res: Vec<ListItem> = Vec::new();
        let mut count: usize = 0;
        proof {
            assert(items0.subrange(0, 0) =~= Seq::<ListItemV>::empty());
            assert(res.deep_view() =~= Seq::<ListItemV>::empty());
            assert(renumber_items(Seq::<ListItemV>::empty()) =~= Seq::<ListItemV>::empty());
            assert(matching_names_upto(items0, id as nat, 0) =~= Set::<Seq<char>>::empty());
            assert(old(store)@.files.remove_keys(Set::<Seq<char>>::empty())
                =~= old(store)@.files);
        }
        let mut k: usize = 0;
        while k < self.inventory.len()
            invariant
                k <= items0.len(),
                self@ == items0,
                self@.len() == self.inventory.len(),
                pred == (|it: ListItemV| it.id != id as nat),
                store@.inventory == old(store)@.inventory,
                count == res.deep_view().len(),
                res.deep_view() == renumber_items(items0.subrange(0, k as int).filter(pred)),
                store@.files == old(store)@.files.remove_keys(
                    matching_names_upto(items0, id as nat, k as int),
                ),
                forall|t: int|
                    0 <= t < items0.len() ==> (#[trigger] items0[t].id == id as nat
                        ==> old(store)@.files.contains_key(items0[t].name)),
            decreases self.inventory.len() - k,
        {
            let ghost sub = items0.subrange(0, k as int);
            let ghost sub1 = items0.subrange(0, k + 1 as int);
            proof {
                assert(sub1.drop_last() =~= sub);
                assert(sub1.last() == items0[k as int]);
                reveal_with_fuel(Seq::filter, 2);
                assert(sub1.filter(pred) == if pred(items0[k as int]) {
                    sub.filter(pred).push(items0[k as int])
                } else {
                    sub.filter(pred)
                });
            }
            let item = &self.inventory[k];
            if item.get_id() != id {
                let ghost prev = res.deep_view();
                let mut new_item = item.clone();
                new_item.set_id(count);
                res.push(new_item);
                proof {
                    assert(res.deep_view() =~= prev.push(
                        ListItemV { id: count as nat, ..items0[k as int] },
                    ));
                    lemma_renumber_push(sub.filter(pred), items0[k as int]);
                }
                count = count + 1;
                proof {
                    assert(matching_names_upto(items0, id as nat, k + 1 as int)
                        =~= matching_names_upto(items0, id as nat, k as int)) by {
                        assert forall|n: Seq<char>|
                            matching_names_upto(items0, id as nat, k + 1 as int).contains(n)
                                implies matching_names_upto(items0, id as nat, k as int).contains(
                            n,
                        ) by {
                            let w = choose|w: int|
                                0 <= w < k + 1 && items0[w].id == id as nat && items0[w].name == n;
                            assert(w < k);
                        }
                    }
                }
            } else {
                let nm = item.get_name();
                let ghost files_before = store@.files;
                let _ = store.delete_set_file(nm);
                proof {
                    let s_old = matching_names_upto(items0, id as nat, k as int);
                    let s_new = matching_names_upto(items0, id as nat, k + 1 as int);
                    assert(s_new =~= s_old.insert(items0[k as int].name)) by {
                        assert forall|n: Seq<char>|
                            s_new.contains(n) implies s_old.insert(
                            items0[k as int].name,
                        ).contains(n) by {
                            let w = choose|w: int|
                                0 <= w < k + 1 && items0[w].id == id as nat && items0[w].name == n;
                            if w < k {
                                assert(s_old.contains(n));
                            }
                        }
                        assert forall|n: Seq<char>|
                            s_old.insert(items0[k as int].name).contains(n) implies s_new.contains(
                            n,
                        ) by {
                            if s_old.contains(n) {
                                let w = choose|w: int|
                                    0 <= w < k && items0[w].id == id as nat && items0[w].name == n;
                                assert(0 <= w < k + 1 && items0[w].id == id as nat && items0[w].name
                                    == n);
                            } else {
                                assert(n == items0[k as int].name);
                                assert(0 <= k < k + 1 && items0[k as int].id == id as nat
                                    && items0[k as int].name == n);
                            }
                        }
                    }
                    if files_before.contains_key(nm@) {
                        assert(store@.files =~= old(store)@.files.remove_keys(s_new));
                    } else {
                        assert(store@.files =~= old(store)@.files.remove_keys(s_new));
                    }
                }
            }
            k = k + 1;
        }
        proof {
            assert(items0.subrange(0, items0.len() as int) =~= items0);
        }
        self.inventory = res;
        Ok(())
    }
}

/// Case-sensitive membership of a string in a vector of strings.
pub fn contains_string(v: &Vec<String>, s: &String) -> (r: bool)
    ensures
        r == v.deep_view().contains(s@),
{
    let mut i: usize = 0;
    while i < v.len()
        invariant
            i <= v.len(),
            forall|j: int| 0 <= j < i ==> v.deep_view()[j] != s@,
        decreases v.len() - i,
    {
        if v[i] == *s {
            assert(v.deep_view()[i as int] == s@);
            return true;
        }
        i = i + 1;
    }
    proof {
        if v.deep_view().contains(s@) {
            let k = choose|k: int| 0 <= k < v.deep_view().len() && v.deep_view()[k] == s@;
            assert(v.deep_view()[k] != s@);
        }
    }
    false
}

} // verus!
