//! The content of an opened bid: a JSON object that names the bidder, the
//! amount offered and the bidder's handle.

use vstd::prelude::*;
use crate::amount::{offered_amount, read_offer};
use crate::bid::{BidView, DecryptedBid};

verus! {

/// A parsed JSON document, as `serde_json` holds it.
#[verifier::external_type_specification]
#[verifier::external_body]
pub struct ExValue(serde_json::Value);

/// One member of a JSON object, as far as a bid is read from it.
#[derive(Clone, Debug, PartialEq, Eq)]
pub enum Member {
    /// A string.
    Text(String),
    /// A number, in the decimal text that `serde_json` writes for it.
    Number(Vec<u8>),
    /// Anything else: null, a boolean, an array or an object.
    Other,
}

/// The mathematical content of a [`Member`].
pub enum MemberView {
    Text(Seq<char>),
    Number(Seq<u8>),
    Other,
}

impl View for Member {
    type V = MemberView;

    open spec fn view(&self) -> MemberView {
        match self {
            Member::Text(text) => MemberView::Text(text@),
            Member::Number(text) => MemberView::Number(text@),
            Member::Other => MemberView::Other,
        }
    }
}

/// The view of a member that may be missing.
pub open spec fn member_view(member: Option<Member>) -> Option<MemberView> {
    match member {
        Some(found) => Some(found@),
        None => None,
    }
}

/// The members that a parsed document holds, by their keys. A document that
/// is no object holds none.
pub uninterp spec fn json_members(document: serde_json::Value) -> Map<Seq<char>, MemberView>;

/// The members of the document that `text` is the JSON text of; `None` where
/// `text` is no JSON text.
pub uninterp spec fn json_document(text: Seq<u8>) -> Option<Map<Seq<char>, MemberView>>;

/// The member of `members` under `key`, if there is one.
pub open spec fn lookup(members: Map<Seq<char>, MemberView>, key: Seq<char>) -> Option<MemberView> {
    if members.contains_key(key) {
        Some(members[key])
    } else {
        None
    }
}

/// Calls `serde_json::from_slice` to parse `text` into a `serde_json::Value`
/// and drops the reason of a failure.
///
/// Trusted: whether the call succeeds, and what the parsed document holds,
/// depends on the bytes of `text` alone.
#[verifier::external_body]
pub(crate) fn parse_document(text: &[u8]) -> (document: Option<serde_json::Value>)
    ensures
        match document {
            Some(parsed) => json_document(text@) == Some(json_members(parsed)),
            None => json_document(text@) is None,
        },
{
    serde_json::from_slice::<serde_json::Value>(text).ok()
}

/// Calls `serde_json::Value::get` with a string key and hands the member out
/// as a plain value: a string as it is, a number in the text that its
/// `to_string` gives.
///
/// Trusted: the result is the member that the document holds under `key`,
/// and `None` where it holds none there or is no object.
#[verifier::external_body]
pub(crate) fn member(document: &serde_json::Value, key: &str) -> (found: Option<Member>)
    ensures
        member_view(found) == lookup(json_members(*document), key@),
{
    match document.get(key) {
        None => None,
        Some(serde_json::Value::String(text)) => Some(Member::Text(text.clone())),
        Some(serde_json::Value::Number(number)) => Some(Member::Number(number.to_string().into_bytes())),
        Some(_) => Some(Member::Other),
    }
}

/// The bid that three members make: the bidder and the handle must be
/// strings, and the amount a number that names an amount of money.
pub open spec fn members_bid(
    bidder: Option<MemberView>,
    amount: Option<MemberView>,
    handle: Option<MemberView>,
) -> Option<BidView> {
    match (bidder, amount, handle) {
        (
            Some(MemberView::Text(bidder)),
            Some(MemberView::Number(amount)),
            Some(MemberView::Text(handle)),
        ) => match offered_amount(amount) {
            Some(sub_units) => Some(BidView { bidder, amount: sub_units as nat, handle }),
            None => None,
        },
        _ => None,
    }
}

/// The bid that the JSON text `plain` holds: an object with the members
/// `bidder`, `amount` and `handle`. Other members are passed over.
pub open spec fn payload_bid(plain: Seq<u8>) -> Option<BidView> {
    match json_document(plain) {
        Some(members) => members_bid(
            lookup(members, "bidder"@),
            lookup(members, "amount"@),
            lookup(members, "handle"@),
        ),
        None => None,
    }
}

/// The view of a bid that may be missing.
pub open spec fn bid_view(bid: Option<DecryptedBid>) -> Option<BidView> {
    match bid {
        Some(found) => Some(found@),
        None => None,
    }
}

/// Makes a bid of the three members that a payload holds for it.
pub fn bid_from_members(bidder: Option<Member>, amount: Option<Member>, handle: Option<Member>) -> (bid:
    Option<DecryptedBid>)
    ensures
        bid_view(bid) == members_bid(member_view(bidder), member_view(amount), member_view(handle)),
{
    match (bidder, amount, handle) {
        (Some(Member::Text(bidder)), Some(Member::Number(amount)), Some(Member::Text(handle))) => {
            match read_offer(amount.as_slice()) {
                Some(sub_units) => Some(DecryptedBid { bidder, amount: sub_units, handle }),
                None => None,
            }
        },
        _ => None,
    }
}

/// Reads the bid out of an opened payload.
pub fn read_bid(plain: &[u8]) -> (bid: Option<DecryptedBid>)
    ensures
        bid_view(bid) == payload_bid(plain@),
{
    match parse_document(plain) {
        Some(document) => {
            let bidder = member(&document, "bidder");
            let amount = member(&document, "amount");
            let handle = member(&document, "handle");
            bid_from_members(bidder, amount, handle)
        },
        None => None,
    }
}

} // verus!
