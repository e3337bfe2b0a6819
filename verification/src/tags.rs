use vstd::prelude::*;

verus! {

/// A tag sequence carries the exact tag: membership is case-sensitive string
/// equality.
pub open spec fn has_tag_v(tags: Seq<Seq<char>>, tag: Seq<char>) -> bool {
    tags.contains(tag)
}

/// OR semantics: some tag of the query occurs among `tags`. An empty query
/// matches nothing.
pub open spec fn has_any_tags_v(tags: Seq<Seq<char>>, query: Seq<Seq<char>>) -> bool {
    exists|i: int| 0 <= i < query.len() && tags.contains(query[i])
}

/// AND semantics: every tag of the query occurs among `tags`. An empty query
/// matches everything (vacuously true).
pub open spec fn has_all_tags_v(tags: Seq<Seq<char>>, query: Seq<Seq<char>>) -> bool {
    forall|i: int| 0 <= i < query.len() ==> tags.contains(query[i])
}

/// An AND query succeeds exactly when the query tags form a subset of the
/// item's tags, both read as sets.
pub proof fn lemma_has_all_tags_is_subset(tags: Seq<Seq<char>>, query: Seq<Seq<char>>)
    ensures
        has_all_tags_v(tags, query) <==> query.to_set().subset_of(tags.to_set()),
{
    if has_all_tags_v(tags, query) {
        assert forall|t: Seq<char>| query.to_set().contains(t) implies tags.to_set().contains(
            t,
        ) by {
            assert(query.contains(t));
            let i = choose|i: int| 0 <= i < query.len() && query[i] == t;
            assert(tags.contains(query[i]));
        }
    }
    if query.to_set().subset_of(tags.to_set()) {
        assert forall|i: int| 0 <= i < query.len() implies tags.contains(query[i]) by {
            assert(query.to_set().contains(query[i]));
            assert(tags.to_set().contains(query[i]));
        }
    }
}

/// An OR query succeeds exactly when the query tags and the item's tags
/// intersect, both read as sets.
pub proof fn lemma_has_any_tags_is_intersection(tags: Seq<Seq<char>>, query: Seq<Seq<char>>)
    ensures
        has_any_tags_v(tags, query) <==> query.to_set().intersect(tags.to_set())
            != Set::<Seq<char>>::empty(),
{
    if has_any_tags_v(tags, query) {
        let i = choose|i: int| 0 <= i < query.len() && tags.contains(query[i]);
        assert(query.to_set().contains(query[i]));
        assert(tags.to_set().contains(query[i]));
        assert(query.to_set().intersect(tags.to_set()).contains(query[i]));
        assert(!Set::<Seq<char>>::empty().contains(query[i]));
    }
    if query.to_set().intersect(tags.to_set()) != Set::<Seq<char>>::empty() {
        assert(!(query.to_set().intersect(tags.to_set()) =~= Set::<Seq<char>>::empty()));
        let t = choose|t: Seq<char>|
            query.to_set().intersect(tags.to_set()).contains(t)
                != Set::<Seq<char>>::empty().contains(t);
        assert(query.to_set().contains(t));
        assert(tags.to_set().contains(t));
        let i = choose|i: int| 0 <= i < query.len() && query[i] == t;
        assert(tags.contains(query[i]));
    }
}

} // verus!
