//! Bids and their ranking score.

use vstd::prelude::*;
use vstd::std_specs::iter::IteratorSpec;
use vstd::string::group_string_axioms;

verus! {

broadcast use group_string_axioms;

/// A bid after it has been opened and read.
///
/// `amount` is the offered payment in sub-units.
#[derive(Clone, Debug, PartialEq, Eq)]
pub struct DecryptedBid {
    pub bidder: String,
    pub amount: u64,
    pub handle: String,
}

/// The mathematical content of a [`DecryptedBid`].
pub struct BidView {
    pub bidder: Seq<char>,
    pub amount: nat,
    pub handle: Seq<char>,
}

impl View for DecryptedBid {
    type V = BidView;

    open spec fn view(&self) -> BidView {
        BidView { bidder: self.bidder@, amount: self.amount as nat, handle: self.handle@ }
    }
}

/// The views of a sequence of bids, in the same order.
pub open spec fn bid_views(bids: Seq<DecryptedBid>) -> Seq<BidView> {
    Seq::new(bids.len(), |i: int| bids[i]@)
}

/// The word that marks a handle as that of a large holder.
pub open spec fn whale() -> Seq<char> {
    seq!['w', 'h', 'a', 'l', 'e']
}

/// Whether `word` stands in `text` from position `at` on.
pub open spec fn occurs_at(word: Seq<char>, text: Seq<char>, at: int) -> bool {
    0 <= at && at + word.len() <= text.len() && text.subrange(at, at + word.len()) == word
}

/// Whether `word` occurs in `text` as a run of neighbouring characters.
pub open spec fn occurs_in(word: Seq<char>, text: Seq<char>) -> bool {
    exists|at: int| occurs_at(word, text, at)
}

/// Twice the factor by which a handle raises its bid in the ranking: a handle
/// that holds the word "whale" counts double, any other handle of fewer than
/// five characters counts one and a half times, the rest count as they are.
pub open spec fn multiplier_doubled(handle: Seq<char>) -> nat {
    if occurs_in(whale(), handle) {
        4
    } else if handle.len() < 5 {
        3
    } else {
        2
    }
}

/// Twice the ranking score of a bid: its amount times its handle's factor.
pub open spec fn score_doubled(bid: BidView) -> nat {
    bid.amount * multiplier_doubled(bid.handle)
}

/// The characters of a string, one by one.
pub fn chars_of(text: &str) -> (chars: Vec<char>)
    ensures
        chars@ == text@,
{
    let mut chars: Vec<char> = Vec::new();
    let mut rest = text.chars();
    loop
        invariant
            chars@ + rest.remaining() == text@,
        ensures
            chars@ == text@,
        decreases text@.len() - chars@.len(),
    {
        match rest.next() {
            Some(c) => {
                chars.push(c);
            },
            None => {
                break;
            },
        }
    }
    chars
}

/// Whether `word` occurs in `text`.
pub fn holds_word(text: &Vec<char>, word: &Vec<char>) -> (found: bool)
    ensures
        found == occurs_in(word@, text@),
{
    if word.len() > text.len() {
        return false;
    }
    let last: usize = text.len() - word.len();
    let mut i: usize = 0;
    while i <= last
        invariant
            last == text.len() - word.len(),
            word.len() <= text.len(),
            i <= last + 1,
            forall|j: int| j < i ==> !occurs_at(word@, text@, j),
        decreases last + 1 - i,
    {
        let mut k: usize = 0;
        while k < word.len() && text[i + k] == word[k]
            invariant
                i + word.len() <= text.len(),
                k <= word.len(),
                forall|m: int| 0 <= m < k ==> text[i + m] == word[m],
            decreases word.len() - k,
        {
            k = k + 1;
        }
        if k == word.len() {
            assert(text@.subrange(i as int, i + word.len()) =~= word@);
            assert(occurs_at(word@, text@, i as int));
            return true;
        }
        assert(text@.subrange(i as int, i + word.len())[k as int] != word@[k as int]);
        i = i + 1;
    }
    false
}

/// Twice the factor by which `handle` raises its bid in the ranking.
pub fn evaluate_multiplier(handle: &str) -> (twice: u64)
    ensures
        twice == multiplier_doubled(handle@),
{
    let chars = chars_of(handle);
    let word: Vec<char> = vec!['w', 'h', 'a', 'l', 'e'];
    assert(word@ =~= whale());
    if holds_word(&chars, &word) {
        4
    } else if chars.len() < 5 {
        3
    } else {
        2
    }
}

/// Twice the ranking score of `bid`.
pub fn evaluate_score(bid: &DecryptedBid) -> (twice: u128)
    ensures
        twice == score_doubled(bid@),
{
    let factor: u64 = evaluate_multiplier(bid.handle.as_str());
    (bid.amount as u128) * (factor as u128)
}

} // verus!
