use vstd::prelude::*;

use crate::card::Card;
use crate::card::CardV;
use crate::tags::has_all_tags_v;
use crate::tags::has_any_tags_v;
use crate::tags::has_tag_v;

verus! {

/// Mathematical view of a study set: its name, its tag sequence and its card
/// sequence, all as plain sequences.
pub ghost struct StudySetV {
    pub name: Seq<char>,
    pub tags: Seq<Seq<char>>,
    pub cards: Seq<CardV>,
}

/// Card ids match card positions: the shape every set has after a deletion.
pub open spec fn cards_numbered(cards: Seq<CardV>) -> bool {
    forall|i: int| 0 <= i < cards.len() ==> cards[i].id == i
}

/// A named, taggable, ordered collection of flashcards. The name doubles as
/// the on-disk file key of the set; tags are free-form labels with no
/// structural duplicate prevention.
#[derive(Debug)]
pub struct StudySet {
    name: String,
    tags: Vec<String>,
    cards: Vec<Card>,
}

impl View for StudySet {
    type V = StudySetV;

    closed spec fn view(&self) -> StudySetV {
        StudySetV { name: self.name@, tags: self.tags.deep_view(), cards: self.cards.deep_view() }
    }
}

impl DeepView for StudySet {
    type V = StudySetV;

    open spec fn deep_view(&self) -> StudySetV {
        self.view()
    }
}

impl Clone for StudySet {
    fn clone(&self) -> (r: Self)
        ensures
            r@ == self@,
    {
        let r = StudySet {
            name: self.name.clone(),
            tags: self.tags.clone(),
            cards: self.cards.clone(),
        };
        proof {
            assert(r.tags.deep_view() =~= self.tags.deep_view());
            assert(r.cards.deep_view() =~= self.cards.deep_view());
        }
        r
    }
}

impl StudySet {
    pub fn new(new_set_name: String) -> (s: StudySet)
        ensures
            s@ == (StudySetV {
                name: new_set_name@,
                tags: Seq::<Seq<char>>::empty(),
                cards: Seq::<CardV>::empty(),
            }),
    {
        let s = StudySet { name: new_set_name, tags: Vec::new(), cards: Vec::new() };
        proof {
            assert(s.tags.deep_view() =~= Seq::<Seq<char>>::empty());
            assert(s.cards.deep_view() =~= Seq::<CardV>::empty());
        }
        s
    }

    /// Renumber every card's id to its position in the sequence.
    pub fn clean_up_set(&mut self)
        ensures
            final(self)@.name == old(self)@.name,
            final(self)@.tags == old(self)@.tags,
            final(self)@.cards.len() == old(self)@.cards.len(),
            forall|i: int|
                0 <= i < old(self)@.cards.len() ==> final(self)@.cards[i] == (CardV {
                    id: i as nat,
                    ..old(self)@.cards[i]
                }),
            cards_numbered(final(self)@.cards),
    {
        let mut count: usize = 0;
        let mut new_cards: Vec<Card> = Vec::new();
        while count < self.cards.len()
            invariant
                count == new_cards.len(),
                count <= self.cards.len(),
                forall|i: int|
                    0 <= i < count ==> new_cards.deep_view()[i] == (CardV {
                        id: i as nat,
                        ..self.cards.deep_view()[i]
                    }),
            decreases self.cards.len() - count,
        {
            let ghost prev = new_cards.deep_view();
            let mut temp = self.cards[count].clone();
            temp.set_id(count);
            assert(temp@ == (CardV { id: count as nat, ..self.cards.deep_view()[count as int] }));
            new_cards.push(temp);
            proof {
                assert(new_cards.deep_view() =~= prev.push(temp@));
            }
            count = count + 1;
        }
        self.cards = new_cards;
    }

    pub fn rename_set(&mut self, new_name: String)
        ensures
            final(self)@ == (StudySetV { name: new_name@, ..old(self)@ }),
    {
        self.name = new_name;
    }

    pub fn add_tag(&mut self, tag: String)
        ensures
            final(self)@ == (StudySetV { tags: old(self)@.tags.push(tag@), ..old(self)@ }),
    {
        self.tags.push(tag);
        proof {
            assert(self.tags.deep_view() =~= old(self)@.tags.push(self.tags@.last()@));
        }
    }

    pub fn add_card(&mut self, card: Card)
        ensures
            final(self)@ == (StudySetV { cards: old(self)@.cards.push(card@), ..old(self)@ }),
    {
        let ghost cv = card@;
        self.cards.push(card);
        proof {
            assert(self.cards.deep_view() =~= old(self)@.cards.push(cv));
        }
    }

    pub fn replace_card(&mut self, index: usize, card: Card)
        requires
            index < old(self)@.cards.len(),
        ensures
            final(self)@ == (StudySetV {
                cards: old(self)@.cards.update(index as int, card@),
                ..old(self)@
            }),
    {
        let ghost cv = card@;
        self.cards.set(index, card);
        proof {
            assert(self.cards.deep_view() =~= old(self)@.cards.update(index as int, cv));
        }
    }

    /// Remove the card at position `to_remove` and renumber the rest so that
    /// ids again equal positions.
    pub fn delete_card(&mut self, to_remove: usize)
        requires
            to_remove < old(self)@.cards.len(),
        ensures
            final(self)@.name == old(self)@.name,
            final(self)@.tags == old(self)@.tags,
            final(self)@.cards.len() == old(self)@.cards.len() - 1,
            forall|i: int|
                0 <= i < to_remove ==> final(self)@.cards[i] == (CardV {
                    id: i as nat,
                    ..old(self)@.cards[i]
                }),
            forall|i: int|
                to_remove <= i < final(self)@.cards.len() ==> final(self)@.cards[i] == (CardV {
                    id: i as nat,
                    ..old(self)@.cards[i + 1]
                }),
            cards_numbered(final(self)@.cards),
    {
        self.cards.remove(to_remove);
        proof {
            assert(self.cards.deep_view() =~= old(self)@.cards.remove(to_remove as int));
        }
        self.clean_up_set();
    }

    pub fn get_set_name(&self) -> (r: String)
        ensures
            r@ == self@.name,
    {
        self.name.clone()
    }

    pub fn get_all_cards(&self) -> (r: Vec<Card>)
        ensures
            r.deep_view() == self@.cards,
    {
        let r = self.cards.clone();
        proof {
            assert(r.deep_view() =~= self@.cards);
        }
        r
    }

    pub fn get_num_of_cards(&self) -> (r: usize)
        ensures
            r == self@.cards.len(),
    {
        self.cards.len()
    }

    pub fn get_card(&self, to_get: usize) -> (r: Card)
        requires
            to_get < self@.cards.len(),
        ensures
            r@ == self@.cards[to_get as int],
    {
        self.cards[to_get].clone()
    }

    pub fn get_all_tags(&self) -> (r: Vec<String>)
        ensures
            r.deep_view() == self@.tags,
    {
        let r = self.tags.clone();
        proof {
            assert(r.deep_view() =~= self@.tags);
        }
        r
    }

    pub fn has_tag(&self, tag: String) -> (r: bool)
        ensures
            r == has_tag_v(self@.tags, tag@),
    {
        let mut i: usize = 0;
        while i < self.tags.len()
            invariant
                i <= self@.tags.len(),
                self@.tags.len() == self.tags.len(),
                forall|j: int| 0 <= j < i ==> self@.tags[j] != tag@,
            decreases self.tags.len() - i,
        {
            if self.tags[i] == tag {
                assert(self@.tags[i as int] == tag@);
                return true;
            }
            i = i + 1;
        }
        false
    }

    /// OR query: true when some query tag occurs among the set's tags; an
    /// empty query matches nothing.
    pub fn has_any_tags(&self, tags: Vec<String>) -> (r: bool)
        ensures
            r == has_any_tags_v(self@.tags, tags.deep_view()),
    {
        let mut i: usize = 0;
        while i < tags.len()
            invariant
                i <= tags.len(),
                forall|j: int| 0 <= j < i ==> !self@.tags.contains(tags.deep_view()[j]),
            decreases tags.len() - i,
        {
            if self.has_tag(tags[i].clone()) {
                assert(self@.tags.contains(tags.deep_view()[i as int]));
                return true;
            }
            i = i + 1;
        }
        false
    }

    /// AND query: true when every query tag occurs among the set's tags; an
    /// empty query matches everything.
    pub fn has_all_tags(&self, tags: Vec<String>) -> (r: bool)
        ensures
            r == has_all_tags_v(self@.tags, tags.deep_view()),
    {
        let mut i: usize = 0;
        while i < tags.len()
            invariant
                i <= tags.len(),
                forall|j: int| 0 <= j < i ==> self@.tags.contains(tags.deep_view()[j]),
            decreases tags.len() - i,
        {
            if !self.has_tag(tags[i].clone()) {
                assert(!self@.tags.contains(tags.deep_view()[i as int]));
                return false;
            }
            i = i + 1;
        }
        true
    }

    /// Position of the first occurrence of `tag`, or -1 when absent. The i8
    /// return type caps how many tags the set may carry.
    pub fn get_tag_index(&self, tag: String) -> (r: i8)
        requires
            self@.tags.len() <= i8::MAX,
        ensures
            !has_tag_v(self@.tags, tag@) ==> r == -1,
            has_tag_v(self@.tags, tag@) ==> {
                &&& 0 <= r < self@.tags.len()
                &&& self@.tags[r as int] == tag@
                &&& forall|j: int| 0 <= j < r ==> self@.tags[j] != tag@
            },
    {
        let mut i: usize = 0;
        while i < self.tags.len()
            invariant
                i <= self@.tags.len(),
                self@.tags.len() == self.tags.len(),
                self@.tags.len() <= i8::MAX,
                forall|j: int| 0 <= j < i ==> self@.tags[j] != tag@,
            decreases self.tags.len() - i,
        {
            if self.tags[i] == tag {
                assert(self@.tags[i as int] == tag@);
                return i as i8;
            }
            i = i + 1;
        }
        -1
    }

    /// Remove the first occurrence of an exact-match tag; no-op when absent.
    pub fn delete_tag(&mut self, tag: String)
        ensures
            final(self)@.name == old(self)@.name,
            final(self)@.cards == old(self)@.cards,
            final(self)@.tags == (match old(self)@.tags.index_of_first(tag@) {
                Some(i) => old(self)@.tags.remove(i),
                None => old(self)@.tags,
            }),
    {
        let mut i: usize = 0;
        while i < self.tags.len()
            invariant
                self == old(self),
                i <= self@.tags.len(),
                self@.tags.len() == self.tags.len(),
                forall|j: int| 0 <= j < i ==> self@.tags[j] != tag@,
            decreases self.tags.len() - i,
        {
            if self.tags[i] == tag {
                assert(self@.tags[i as int] == tag@);
                proof {
                    assert(old(self)@.tags.contains(tag@));
                    old(self)@.tags.index_of_first_ensures(tag@);
                    match old(self)@.tags.index_of_first(tag@) {
                        Some(idx) => {
                            assert(old(self)@.tags[idx] == tag@);
                            if idx > i {
                                assert(old(self)@.tags[i as int] != tag@);
                            }
                            assert(idx == i as int);
                        },
                        None => {
                            assert(false);
                        },
                    }
                }
                self.tags.remove(i);
                proof {
                    assert(self.tags.deep_view() =~= old(self)@.tags.remove(i as int));
                }
                return ;
            }
            i = i + 1;
        }
        proof {
            assert(!old(self)@.tags.contains(tag@)) by {
                if old(self)@.tags.contains(tag@) {
                    let k = choose|k: int| 0 <= k < old(self)@.tags.len() && old(self)@.tags[k]
                        == tag@;
                    assert(old(self)@.tags[k] != tag@);
                }
            }
            old(self)@.tags.index_of_first_ensures(tag@);
        }
    }
}

/// The card ids held in a real `StudySet` always fit in `usize`.
pub proof fn lemma_view_ids_bounded(s: &StudySet)
    ensures
        forall|k: int| 0 <= k < s@.cards.len() ==> #[trigger] s@.cards[k].id <= usize::MAX,
{
    assert forall|k: int| 0 <= k < s@.cards.len() implies #[trigger] s@.cards[k].id
        <= usize::MAX by {
        assert(s@.cards[k] == s.cards@[k]@);
        crate::card::lemma_card_id_bounded(&s.cards@[k]);
    }
}

/// Number of positions at which the user's answer equals the card's expected
/// answer, over the first `answers.len()` cards.
pub open spec fn spec_score(answers: Seq<Seq<char>>, cards: Seq<CardV>) -> nat
    decreases answers.len(),
{
    if answers.len() == 0 {
        0
    } else {
        spec_score(answers.drop_last(), cards) + if answers.last() == cards[answers.len()
            - 1].ans {
            1nat
        } else {
            0nat
        }
    }
}

/// Score a batch test: one point per answer that exactly matches the card at
/// the same position.
pub fn get_scores(user_answers: Vec<String>, study_set: StudySet) -> (score: usize)
    requires
        user_answers@.len() <= study_set@.cards.len(),
    ensures
        score == spec_score(user_answers.deep_view(), study_set@.cards),
{
    let mut score: usize = 0;
    let mut i: usize = 0;
    while i < user_answers.len()
        invariant
            i <= user_answers@.len(),
            user_answers@.len() <= study_set@.cards.len(),
            score <= i,
            score == spec_score(user_answers.deep_view().subrange(0, i as int), study_set@.cards),
        decreases user_answers.len() - i,
    {
        let card = study_set.get_card(i);
        let ans = card.get_ans();
        let ghost prefix = user_answers.deep_view().subrange(0, i as int);
        let ghost next = user_answers.deep_view().subrange(0, i + 1 as int);
        proof {
            assert(next.drop_last() =~= prefix);
            assert(next.last() == user_answers.deep_view()[i as int]);
        }
        if user_answers[i] == ans {
            assert(user_answers.deep_view()[i as int] == study_set@.cards[i as int].ans);
            score = score + 1;
        } else {
            assert(user_answers.deep_view()[i as int] != study_set@.cards[i as int].ans);
        }
        i = i + 1;
    }
    proof {
        assert(user_answers.deep_view().subrange(0, user_answers@.len() as int)
            =~= user_answers.deep_view());
    }
    score
}

} // verus!
