//! Greedy allocation of the token supply under the payment cap.

use vstd::prelude::*;
use crate::bid::{BidView, DecryptedBid, bid_views};

verus! {

/// One winner's share: tokens received and payment taken, in sub-units.
#[derive(Clone, Debug, PartialEq, Eq)]
pub struct AllocationEntry {
    pub bidder: String,
    pub token_amount: u64,
    pub payment_amount: u64,
}

/// The mathematical content of an [`AllocationEntry`].
pub struct EntryView {
    pub bidder: Seq<char>,
    pub token_amount: nat,
    pub payment_amount: nat,
}

impl View for AllocationEntry {
    type V = EntryView;

    open spec fn view(&self) -> EntryView {
        EntryView {
            bidder: self.bidder@,
            token_amount: self.token_amount as nat,
            payment_amount: self.payment_amount as nat,
        }
    }
}

/// The views of a sequence of entries, in the same order.
pub open spec fn entry_views(entries: Seq<AllocationEntry>) -> Seq<EntryView> {
    Seq::new(entries.len(), |i: int| entries[i]@)
}

/// The part of a bid that is accepted when `raised` of `cap` is already taken:
/// the whole bid, or what is left under the cap if that is less.
pub open spec fn accepted_amount(amount: nat, cap: nat, raised: nat) -> nat {
    if raised + amount > cap {
        (cap - raised) as nat
    } else {
        amount
    }
}

/// The tokens that an accepted payment earns: its share of the cap, applied to
/// the supply and rounded down.
pub open spec fn token_share(accepted: nat, total_tokens: nat, cap: nat) -> nat {
    if cap == 0 {
        0
    } else {
        (accepted * total_tokens) / cap
    }
}

/// The entries that the bids `ranked`, taken in order, receive when `raised`
/// of `cap` is already taken.
///
/// A bid is accepted up to the remaining headroom. It appears in the result
/// only if its token share is positive, but its accepted amount always counts
/// against the cap. Once the cap is reached no later bid receives anything.
pub open spec fn allocation(ranked: Seq<BidView>, total_tokens: nat, cap: nat, raised: nat) -> Seq<
    EntryView,
>
    decreases ranked.len(),
{
    if ranked.len() == 0 || raised >= cap {
        Seq::empty()
    } else {
        let accepted = accepted_amount(ranked[0].amount, cap, raised);
        let tokens = token_share(accepted, total_tokens, cap);
        let rest = allocation(ranked.drop_first(), total_tokens, cap, raised + accepted);
        if tokens > 0 {
            seq![
                EntryView { bidder: ranked[0].bidder, token_amount: tokens, payment_amount: accepted },
            ] + rest
        } else {
            rest
        }
    }
}

/// The bids at the positions `order`, in that order.
pub open spec fn arranged(bids: Seq<BidView>, order: Seq<usize>) -> Seq<BidView> {
    Seq::new(order.len(), |k: int| bids[order[k] as int])
}

/// The payments of all entries together.
pub open spec fn payments_sum(entries: Seq<EntryView>) -> nat
    decreases entries.len(),
{
    if entries.len() == 0 {
        0
    } else {
        entries[0].payment_amount + payments_sum(entries.drop_first())
    }
}

/// The tokens of all entries together.
pub open spec fn tokens_sum(entries: Seq<EntryView>) -> nat
    decreases entries.len(),
{
    if entries.len() == 0 {
        0
    } else {
        entries[0].token_amount + tokens_sum(entries.drop_first())
    }
}

proof fn lemma_shares_add_up(a: nat, b: nat, total_tokens: nat, cap: nat)
    requires
        cap > 0,
    ensures
        (a * total_tokens) / cap + (b * total_tokens) / cap <= ((a + b) * total_tokens) / cap,
{
    let x = a * total_tokens;
    let y = b * total_tokens;
    assert((a + b) * total_tokens == x + y) by (nonlinear_arith)
        requires
            x == a * total_tokens,
            y == b * total_tokens,
    ;
    assert(x / cap + y / cap <= (x + y) / cap) by (nonlinear_arith)
        requires
            cap > 0,
            x >= 0,
            y >= 0,
    ;
}

/// From any point of the walk on, the payments taken fit into the headroom
/// that is left.
pub proof fn lemma_payments_fit_headroom(
    ranked: Seq<BidView>,
    total_tokens: nat,
    cap: nat,
    raised: nat,
)
    requires
        raised <= cap,
    ensures
        payments_sum(allocation(ranked, total_tokens, cap, raised)) <= cap - raised,
    decreases ranked.len(),
{
    if ranked.len() == 0 || raised >= cap {
    } else {
        let accepted = accepted_amount(ranked[0].amount, cap, raised);
        let tokens = token_share(accepted, total_tokens, cap);
        let rest = allocation(ranked.drop_first(), total_tokens, cap, raised + accepted);
        lemma_payments_fit_headroom(ranked.drop_first(), total_tokens, cap, raised + accepted);
        if tokens > 0 {
            let head = EntryView {
                bidder: ranked[0].bidder,
                token_amount: tokens,
                payment_amount: accepted,
            };
            assert((seq![head] + rest).drop_first() == rest);
        }
    }
}

/// From any point of the walk on, the tokens handed out are no more than the
/// share that the remaining headroom would earn.
pub proof fn lemma_tokens_fit_headroom(
    ranked: Seq<BidView>,
    total_tokens: nat,
    cap: nat,
    raised: nat,
)
    requires
        raised <= cap,
    ensures
        tokens_sum(allocation(ranked, total_tokens, cap, raised)) <= token_share(
            (cap - raised) as nat,
            total_tokens,
            cap,
        ),
    decreases ranked.len(),
{
    if ranked.len() == 0 || raised >= cap {
    } else {
        let accepted = accepted_amount(ranked[0].amount, cap, raised);
        let tokens = token_share(accepted, total_tokens, cap);
        let rest = allocation(ranked.drop_first(), total_tokens, cap, raised + accepted);
        let left = (cap - raised - accepted) as nat;
        lemma_tokens_fit_headroom(ranked.drop_first(), total_tokens, cap, raised + accepted);
        lemma_shares_add_up(accepted, left, total_tokens, cap);
        assert(accepted + left == cap - raised);
        if tokens > 0 {
            let head = EntryView {
                bidder: ranked[0].bidder,
                token_amount: tokens,
                payment_amount: accepted,
            };
            assert((seq![head] + rest).drop_first() == rest);
        }
    }
}

/// The payments of a resolution never add up to more than the cap.
pub proof fn lemma_payments_within_cap(ranked: Seq<BidView>, total_tokens: nat, cap: nat)
    ensures
        payments_sum(allocation(ranked, total_tokens, cap, 0)) <= cap,
{
    lemma_payments_fit_headroom(ranked, total_tokens, cap, 0);
}

/// The tokens of a resolution never add up to more than the supply.
pub proof fn lemma_tokens_within_supply(ranked: Seq<BidView>, total_tokens: nat, cap: nat)
    ensures
        tokens_sum(allocation(ranked, total_tokens, cap, 0)) <= total_tokens,
{
    lemma_tokens_fit_headroom(ranked, total_tokens, cap, 0);
    if cap > 0 {
        lemma_share_within_supply(cap, total_tokens, cap);
    }
}

/// Every entry of an allocation holds at least one token, and there are no
/// more entries than bids.
pub proof fn lemma_entries_are_rewarded(
    ranked: Seq<BidView>,
    total_tokens: nat,
    cap: nat,
    raised: nat,
)
    ensures
        forall|i: int|
            0 <= i < allocation(ranked, total_tokens, cap, raised).len() ==> (#[trigger] allocation(
                ranked,
                total_tokens,
                cap,
                raised,
            )[i]).token_amount > 0,
        allocation(ranked, total_tokens, cap, raised).len() <= ranked.len(),
    decreases ranked.len(),
{
    if ranked.len() == 0 || raised >= cap {
    } else {
        let accepted = accepted_amount(ranked[0].amount, cap, raised);
        lemma_entries_are_rewarded(ranked.drop_first(), total_tokens, cap, raised + accepted);
    }
}

/// A bid whose share rounds down to no token gets no entry, yet what was
/// accepted of it is gone from the headroom of the bids behind it.
pub proof fn lemma_unrewarded_bid_uses_headroom(
    first: BidView,
    behind: Seq<BidView>,
    total_tokens: nat,
    cap: nat,
    raised: nat,
)
    requires
        raised < cap,
        token_share(accepted_amount(first.amount, cap, raised), total_tokens, cap) == 0,
    ensures
        allocation(seq![first] + behind, total_tokens, cap, raised) == allocation(
            behind,
            total_tokens,
            cap,
            raised + accepted_amount(first.amount, cap, raised),
        ),
{
    assert((seq![first] + behind).drop_first() == behind);
}

/// Whether `entries` reward the bids at `positions` of `ranked`: one entry
/// for each position, the positions rising, each entry under the name of its
/// bid and for no more than that bid offered.
pub open spec fn rewards_in_rank(
    entries: Seq<EntryView>,
    ranked: Seq<BidView>,
    positions: Seq<int>,
) -> bool {
    &&& positions.len() == entries.len()
    &&& forall|i: int| 0 <= i < positions.len() ==> 0 <= #[trigger] positions[i] < ranked.len()
    &&& forall|i: int, j: int|
        0 <= i < j < positions.len() ==> #[trigger] positions[i] < #[trigger] positions[j]
    &&& forall|i: int|
        0 <= i < positions.len() ==> {
            &&& entries[i].bidder == ranked[#[trigger] positions[i]].bidder
            &&& entries[i].payment_amount <= ranked[positions[i]].amount
        }
}

/// The winners stand in the result in the order of their rank: the entries of
/// an allocation reward bids at rising positions of the ranked list.
pub proof fn lemma_winners_keep_rank(
    ranked: Seq<BidView>,
    total_tokens: nat,
    cap: nat,
    raised: nat,
) -> (positions: Seq<int>)
    ensures
        rewards_in_rank(allocation(ranked, total_tokens, cap, raised), ranked, positions),
    decreases ranked.len(),
{
    if ranked.len() == 0 || raised >= cap {
        Seq::empty()
    } else {
        let accepted = accepted_amount(ranked[0].amount, cap, raised);
        let tokens = token_share(accepted, total_tokens, cap);
        let behind = ranked.drop_first();
        let rest = allocation(behind, total_tokens, cap, raised + accepted);
        let found = lemma_winners_keep_rank(behind, total_tokens, cap, raised + accepted);
        let moved = Seq::new(found.len(), |i: int| found[i] + 1);
        assert forall|i: int| 0 <= i < moved.len() implies {
            &&& 0 < #[trigger] moved[i] < ranked.len()
            &&& rest[i].bidder == ranked[moved[i]].bidder
            &&& rest[i].payment_amount <= ranked[moved[i]].amount
        } by {
            assert(behind[found[i]] == ranked[found[i] + 1]);
        }
        assert forall|i: int, j: int| 0 <= i < j < moved.len() implies #[trigger] moved[i]
            < #[trigger] moved[j] by {
            assert(found[i] < found[j]);
        }
        if tokens > 0 {
            let entries = allocation(ranked, total_tokens, cap, raised);
            let positions = seq![0int] + moved;
            assert forall|i: int| 0 <= i < positions.len() implies {
                &&& 0 <= #[trigger] positions[i] < ranked.len()
                &&& entries[i].bidder == ranked[positions[i]].bidder
                &&& entries[i].payment_amount <= ranked[positions[i]].amount
            } by {
                if i > 0 {
                    assert(positions[i] == moved[i - 1]);
                    assert(entries[i] == rest[i - 1]);
                }
            }
            assert forall|i: int, j: int| 0 <= i < j < positions.len() implies #[trigger] positions[i]
                < #[trigger] positions[j] by {
                assert(positions[j] == moved[j - 1]);
                if i > 0 {
                    assert(positions[i] == moved[i - 1]);
                }
            }
            positions
        } else {
            moved
        }
    }
}

/// Once the cap is reached, no bid receives anything.
pub proof fn lemma_nothing_beyond_cap(ranked: Seq<BidView>, total_tokens: nat, cap: nat, raised: nat)
    requires
        raised >= cap,
    ensures
        allocation(ranked, total_tokens, cap, raised) == Seq::<EntryView>::empty(),
{
}

proof fn lemma_share_within_supply(accepted: nat, total_tokens: nat, cap: nat)
    requires
        accepted <= cap,
        cap > 0,
    ensures
        (accepted * total_tokens) / cap <= total_tokens,
        accepted * total_tokens <= cap * total_tokens,
{
    assert(accepted * total_tokens <= cap * total_tokens) by (nonlinear_arith)
        requires
            accepted <= cap,
    ;
    assert((accepted * total_tokens) / cap <= total_tokens) by (nonlinear_arith)
        requires
            accepted * total_tokens <= cap * total_tokens,
            cap > 0,
    ;
}

/// Walks the bids in ranked order and gives each its share until the cap is
/// reached.
pub fn allocate(bids: &Vec<DecryptedBid>, order: &Vec<usize>, total_tokens: u64, cap: u64) -> (entries:
    Vec<AllocationEntry>)
    requires
        forall|k: int| 0 <= k < order.len() ==> order[k] < bids.len(),
    ensures
        entry_views(entries@) == allocation(
            arranged(bid_views(bids@), order@),
            total_tokens as nat,
            cap as nat,
            0,
        ),
{
    let ghost ranked = arranged(bid_views(bids@), order@);
    let mut entries: Vec<AllocationEntry> = Vec::new();
    let mut raised: u64 = 0;
    let mut i: usize = 0;
    assert(ranked.skip(0) == ranked);
    assert(entry_views(entries@) == Seq::<EntryView>::empty());
    while i < order.len() && raised < cap
        invariant
            i <= order.len(),
            raised <= cap,
            ranked == arranged(bid_views(bids@), order@),
            forall|k: int| 0 <= k < order.len() ==> order[k] < bids.len(),
            allocation(ranked, total_tokens as nat, cap as nat, 0) == entry_views(entries@)
                + allocation(ranked.skip(i as int), total_tokens as nat, cap as nat, raised as nat),
        decreases order.len() - i,
    {
        let bid = &bids[order[i]];
        let headroom: u64 = cap - raised;
        let accepted: u64 = if bid.amount > headroom {
            headroom
        } else {
            bid.amount
        };
        proof {
            lemma_share_within_supply(accepted as nat, total_tokens as nat, cap as nat);
            assert((accepted as u128) * (total_tokens as u128) <= 0xffff_ffff_ffff_ffff
                * 0xffff_ffff_ffff_ffff) by (nonlinear_arith)
                requires
                    accepted <= 0xffff_ffff_ffff_ffff,
                    total_tokens <= 0xffff_ffff_ffff_ffff,
            ;
        }
        let product: u128 = (accepted as u128) * (total_tokens as u128);
        let tokens: u64 = (product / (cap as u128)) as u64;
        let ghost tail = ranked.skip(i as int);
        let ghost before = entry_views(entries@);
        proof {
            assert(tail.len() > 0);
            assert(tail[0] == bid@);
            assert(tail.drop_first() == ranked.skip(i + 1));
            assert(accepted as nat == accepted_amount(tail[0].amount, cap as nat, raised as nat));
            assert(tokens as nat == token_share(accepted as nat, total_tokens as nat, cap as nat));
        }
        if tokens > 0 {
            let entry = AllocationEntry {
                bidder: bid.bidder.clone(),
                token_amount: tokens,
                payment_amount: accepted,
            };
            entries.push(entry);
            proof {
                assert(entry_views(entries@) == before + seq![entry@]);
            }
        }
        raised = raised + accepted;
        i = i + 1;
    }
    entries
}

} // verus!
