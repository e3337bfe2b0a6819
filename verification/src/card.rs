use vstd::prelude::*;

verus! {

/// Mathematical view of a flashcard: its position id and its three text
/// fields, as plain sequences.
pub ghost struct CardV {
    pub id: nat,
    pub word: Seq<char>,
    pub ans: Seq<char>,
    pub remarks: Seq<char>,
}

/// One flashcard: a prompt word, the expected answer and a free-form remark.
/// The id is the card's position within its study set; it is reassigned
/// whenever another card of the set is deleted.
#[derive(Debug)]
pub struct Card {
    id: usize,
    word: String,
    ans: String,
    remarks: String,
}

impl View for Card {
    type V = CardV;

    closed spec fn view(&self) -> CardV {
        CardV {
            id: self.id as nat,
            word: self.word@,
            ans: self.ans@,
            remarks: self.remarks@,
        }
    }
}

impl DeepView for Card {
    type V = CardV;

    open spec fn deep_view(&self) -> CardV {
        self.view()
    }
}

impl Clone for Card {
    fn clone(&self) -> (r: Self)
        ensures
            r@ == self@,
    {
        Card {
            id: self.id,
            word: self.word.clone(),
            ans: self.ans.clone(),
            remarks: self.remarks.clone(),
        }
    }
}

impl Card {
    pub fn new(
        new_card_id: usize,
        new_card_word: String,
        new_card_ans: String,
        new_card_remark: String,
    ) -> (c: Card)
        ensures
            c@ == (CardV {
                id: new_card_id as nat,
                word: new_card_word@,
                ans: new_card_ans@,
                remarks: new_card_remark@,
            }),
    {
        Card {
            id: new_card_id,
            word: new_card_word,
            ans: new_card_ans,
            remarks: new_card_remark,
        }
    }

    pub fn set_id(&mut self, new_card_id: usize)
        ensures
            final(self)@ == (CardV { id: new_card_id as nat, ..old(self)@ }),
    {
        self.id = new_card_id;
    }

    pub fn get_id(&self) -> (r: usize)
        ensures
            r as nat == self@.id,
    {
        self.id
    }

    pub fn get_word(&self) -> (r: String)
        ensures
            r@ == self@.word,
    {
        self.word.clone()
    }

    pub fn get_ans(&self) -> (r: String)
        ensures
            r@ == self@.ans,
    {
        self.ans.clone()
    }

    pub fn get_remarks(&self) -> (r: String)
        ensures
            r@ == self@.remarks,
    {
        self.remarks.clone()
    }
}

/// The id of a card held in a `Card` always fits in `usize`.
pub proof fn lemma_card_id_bounded(c: &Card)
    ensures
        c@.id <= usize::MAX,
{
}

} // verus!
