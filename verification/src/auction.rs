//! Resolution of an auction: from sealed bids to the winners, their tokens
//! and their payments.

use vstd::prelude::*;
use crate::allocate::{
    AllocationEntry,
    EntryView,
    allocate,
    allocation,
    arranged,
    entry_views,
    lemma_nothing_beyond_cap,
    lemma_payments_within_cap,
    lemma_tokens_within_supply,
    payments_sum,
    tokens_sum,
};
use crate::amount::{decimal_text, write_decimal};
use crate::bid::{BidView, DecryptedBid, bid_views};
use crate::hexcode::hex_decoded;
use crate::payload::{bid_view, payload_bid, read_bid};
use crate::rank::{is_ranking, lemma_ranking_is_unique, rank, ranking};
use crate::sealed::{may_unseal, open_bid, outcome_view};

verus! {

/// A request to resolve one auction.
#[derive(Clone, Debug, PartialEq, Eq)]
pub struct SolveRequest {
    /// The sealed bids, each the hexadecimal text of a ciphertext, in the
    /// order in which they were made.
    pub encrypted_bids: Vec<String>,
    /// The tokens to hand out.
    pub total_tokens: u64,
    /// The most that may be raised, in sub-units.
    pub cap: u64,
}

/// The outcome of an auction: three lists of equal length, one place for each
/// winner, in ranked order. Numbers are written in decimal.
#[derive(Clone, Debug, PartialEq, Eq)]
pub struct AuctionResult {
    pub winners: Vec<String>,
    pub token_amounts: Vec<String>,
    /// The payments, in sub-units.
    pub sui_payments: Vec<String>,
}

/// The mathematical content of an [`AuctionResult`].
pub struct ResultView {
    pub winners: Seq<Seq<char>>,
    pub token_amounts: Seq<Seq<char>>,
    pub sui_payments: Seq<Seq<char>>,
}

/// The texts of a sequence of strings, in the same order.
pub open spec fn texts(strings: Seq<String>) -> Seq<Seq<char>> {
    Seq::new(strings.len(), |i: int| strings[i]@)
}

impl View for AuctionResult {
    type V = ResultView;

    open spec fn view(&self) -> ResultView {
        ResultView {
            winners: texts(self.winners@),
            token_amounts: texts(self.token_amounts@),
            sui_payments: texts(self.sui_payments@),
        }
    }
}

/// The result that reports `entries`: for each entry, in order, its bidder,
/// its tokens and its payment.
pub open spec fn assembled(entries: Seq<EntryView>) -> ResultView {
    ResultView {
        winners: Seq::new(entries.len(), |i: int| entries[i].bidder),
        token_amounts: Seq::new(entries.len(), |i: int| decimal_text(entries[i].token_amount)),
        sui_payments: Seq::new(entries.len(), |i: int| decimal_text(entries[i].payment_amount)),
    }
}

/// The entries that `bids` receive: the bids are ranked, and the supply is
/// allocated to them in that order under the cap.
pub open spec fn settlement(bids: Seq<BidView>, total_tokens: nat, cap: nat) -> Seq<EntryView> {
    allocation(arranged(bids, ranking(bids)), total_tokens, cap, 0)
}

/// The outcome of an auction among `bids`.
pub open spec fn resolution(bids: Seq<BidView>, total_tokens: nat, cap: nat) -> ResultView {
    assembled(settlement(bids, total_tokens, cap))
}

/// The payloads of a sequence of opened bids, in the same order.
pub open spec fn payloads(opened: Seq<Option<Vec<u8>>>) -> Seq<Option<Seq<u8>>> {
    Seq::new(
        opened.len(),
        |i: int|
            match opened[i] {
                Some(plain) => Some(plain@),
                None => None,
            },
    )
}

/// The bids that can be read out of `opened`, in the same order. A bid that
/// could not be opened, or whose payload holds no bid, is passed over.
pub open spec fn bids_read(opened: Seq<Option<Seq<u8>>>) -> Seq<BidView>
    decreases opened.len(),
{
    if opened.len() == 0 {
        Seq::empty()
    } else {
        let before = bids_read(opened.drop_last());
        match opened.last() {
            Some(plain) => match payload_bid(plain) {
                Some(bid) => before.push(bid),
                None => before,
            },
            None => before,
        }
    }
}

/// Whether `opened` can be what opening `sealed` gave: one outcome for each
/// sealed bid, and none for a bid whose text is no hexadecimal.
pub open spec fn opens_to(sealed: Seq<String>, opened: Seq<Option<Seq<u8>>>) -> bool {
    &&& opened.len() == sealed.len()
    &&& forall|i: int|
        0 <= i < sealed.len() && hex_decoded(#[trigger] sealed[i]@) is None ==> opened[i] is None
}

/// The result without winners: three empty lists.
pub open spec fn no_winners() -> ResultView {
    ResultView { winners: Seq::empty(), token_amounts: Seq::empty(), sui_payments: Seq::empty() }
}

/// The three lists of a result have one entry each for every winner.
pub proof fn lemma_lists_have_one_length(entries: Seq<EntryView>)
    ensures
        assembled(entries).winners.len() == entries.len(),
        assembled(entries).token_amounts.len() == entries.len(),
        assembled(entries).sui_payments.len() == entries.len(),
{
}

/// Whichever ranking of the bids a resolution goes by, it comes to the same
/// result: the outcome is fixed by the bids, the supply and the cap.
pub proof fn lemma_resolution_is_determined(
    bids: Seq<BidView>,
    order: Seq<usize>,
    total_tokens: nat,
    cap: nat,
)
    requires
        is_ranking(order, bids),
    ensures
        assembled(allocation(arranged(bids, order), total_tokens, cap, 0)) == resolution(
            bids,
            total_tokens,
            cap,
        ),
{
    lemma_ranking_is_unique(order, ranking(bids), bids);
}

/// In every settlement the payments stay within the cap and the tokens
/// within the supply.
pub proof fn lemma_settlement_within_limits(bids: Seq<BidView>, total_tokens: nat, cap: nat)
    ensures
        payments_sum(settlement(bids, total_tokens, cap)) <= cap,
        tokens_sum(settlement(bids, total_tokens, cap)) <= total_tokens,
{
    let ranked = arranged(bids, ranking(bids));
    lemma_payments_within_cap(ranked, total_tokens, cap);
    lemma_tokens_within_supply(ranked, total_tokens, cap);
}

/// Without bids there are no winners.
pub proof fn lemma_no_bids_no_winners(total_tokens: nat, cap: nat)
    ensures
        resolution(Seq::empty(), total_tokens, cap) == no_winners(),
{
    let bids = Seq::<BidView>::empty();
    assert(is_ranking(Seq::<usize>::empty(), bids));
    assert(ranking(bids).len() == 0);
    assert(arranged(bids, ranking(bids)).len() == 0);
    assert(resolution(bids, total_tokens, cap).winners =~= Seq::empty());
    assert(resolution(bids, total_tokens, cap).token_amounts =~= Seq::empty());
    assert(resolution(bids, total_tokens, cap).sui_payments =~= Seq::empty());
}

/// Under a cap of zero there are no winners.
pub proof fn lemma_no_cap_no_winners(bids: Seq<BidView>, total_tokens: nat)
    ensures
        resolution(bids, total_tokens, 0) == no_winners(),
{
    lemma_nothing_beyond_cap(arranged(bids, ranking(bids)), total_tokens, 0, 0);
    assert(resolution(bids, total_tokens, 0).winners =~= Seq::empty());
    assert(resolution(bids, total_tokens, 0).token_amounts =~= Seq::empty());
    assert(resolution(bids, total_tokens, 0).sui_payments =~= Seq::empty());
}

/// Sealed bids of which none could be opened and read leave no winners; so
/// does a request without bids.
pub proof fn lemma_nothing_read_no_winners(opened: Seq<Option<Seq<u8>>>)
    requires
        forall|i: int|
            0 <= i < opened.len() ==> (#[trigger] opened[i] matches Some(plain) ==> payload_bid(
                plain,
            ) is None),
    ensures
        bids_read(opened) == Seq::<BidView>::empty(),
    decreases opened.len(),
{
    if opened.len() > 0 {
        lemma_nothing_read_no_winners(opened.drop_last());
        assert(opened.last() == opened[opened.len() - 1]);
    }
}

/// Packs the entries of an allocation into the lists of a result.
pub fn assemble(entries: &Vec<AllocationEntry>) -> (result: AuctionResult)
    ensures
        result@ == assembled(entry_views(entries@)),
{
    let mut winners: Vec<String> = Vec::new();
    let mut token_amounts: Vec<String> = Vec::new();
    let mut sui_payments: Vec<String> = Vec::new();
    let mut i: usize = 0;
    while i < entries.len()
        invariant
            i <= entries.len(),
            winners.len() == i,
            token_amounts.len() == i,
            sui_payments.len() == i,
            forall|k: int| 0 <= k < i ==> (#[trigger] winners[k])@ == entries[k].bidder@,
            forall|k: int|
                0 <= k < i ==> (#[trigger] token_amounts[k])@ == decimal_text(
                    entries[k].token_amount as nat,
                ),
            forall|k: int|
                0 <= k < i ==> (#[trigger] sui_payments[k])@ == decimal_text(
                    entries[k].payment_amount as nat,
                ),
        decreases entries.len() - i,
    {
        let entry = &entries[i];
        winners.push(entry.bidder.clone());
        token_amounts.push(write_decimal(entry.token_amount));
        sui_payments.push(write_decimal(entry.payment_amount));
        i = i + 1;
    }
    let result = AuctionResult { winners, token_amounts, sui_payments };
    proof {
        let expected = assembled(entry_views(entries@));
        assert(result@.winners =~= expected.winners);
        assert(result@.token_amounts =~= expected.token_amounts);
        assert(result@.sui_payments =~= expected.sui_payments);
    }
    result
}

/// Ranks the bids and allocates the supply to them. Payments stay within the
/// cap and tokens within the supply.
pub fn settle(bids: &Vec<DecryptedBid>, total_tokens: u64, cap: u64) -> (entries: Vec<
    AllocationEntry,
>)
    ensures
        entry_views(entries@) == settlement(bid_views(bids@), total_tokens as nat, cap as nat),
        payments_sum(entry_views(entries@)) <= cap,
        tokens_sum(entry_views(entries@)) <= total_tokens,
{
    let order = rank(bids);
    proof {
        let ranked = arranged(bid_views(bids@), order@);
        lemma_payments_within_cap(ranked, total_tokens as nat, cap as nat);
        lemma_tokens_within_supply(ranked, total_tokens as nat, cap as nat);
    }
    allocate(bids, &order, total_tokens, cap)
}

/// Resolves an auction among bids that have been opened and read.
pub fn resolve(bids: &Vec<DecryptedBid>, total_tokens: u64, cap: u64) -> (result: AuctionResult)
    ensures
        result@ == resolution(bid_views(bids@), total_tokens as nat, cap as nat),
{
    let entries = settle(bids, total_tokens, cap);
    assemble(&entries)
}

/// Opens every sealed bid of a request with the resolver's secret key.
pub fn open_bids(sealed: &Vec<String>, secret_key: &[u8]) -> (opened: Vec<Option<Vec<u8>>>)
    ensures
        opens_to(sealed@, payloads(opened@)),
{
    let mut opened: Vec<Option<Vec<u8>>> = Vec::new();
    let mut i: usize = 0;
    while i < sealed.len()
        invariant
            i <= sealed.len(),
            opened.len() == i,
            forall|k: int| 0 <= k < i && hex_decoded(#[trigger] sealed[k]@) is None ==> opened[k] is None,
        decreases sealed.len() - i,
    {
        let plain = open_bid(sealed[i].as_str(), secret_key);
        opened.push(plain);
        i = i + 1;
    }
    opened
}

/// Reads the bids out of what opening gave, passing over what holds none.
pub fn read_bids(opened: &Vec<Option<Vec<u8>>>) -> (bids: Vec<DecryptedBid>)
    ensures
        bid_views(bids@) == bids_read(payloads(opened@)),
{
    let mut bids: Vec<DecryptedBid> = Vec::new();
    let mut i: usize = 0;
    assert(payloads(opened@).take(0) =~= Seq::<Option<Seq<u8>>>::empty());
    assert(bid_views(bids@) =~= Seq::<BidView>::empty());
    while i < opened.len()
        invariant
            i <= opened.len(),
            bid_views(bids@) == bids_read(payloads(opened@).take(i as int)),
        decreases opened.len() - i,
    {
        let ghost before = bid_views(bids@);
        proof {
            let upto = payloads(opened@).take(i + 1);
            assert(upto.drop_last() =~= payloads(opened@).take(i as int));
            assert(upto.last() == payloads(opened@)[i as int]);
        }
        match &opened[i] {
            Some(plain) => {
                match read_bid(plain.as_slice()) {
                    Some(bid) => {
                        bids.push(bid);
                        assert(bid_views(bids@) =~= before.push(bid@));
                    },
                    None => {},
                }
            },
            None => {},
        }
        i = i + 1;
    }
    assert(payloads(opened@).take(opened.len() as int) =~= payloads(opened@));
    bids
}

/// Resolves an auction among bids that have been opened but not yet read.
pub fn resolve_opened(opened: &Vec<Option<Vec<u8>>>, total_tokens: u64, cap: u64) -> (result:
    AuctionResult)
    ensures
        result@ == resolution(bids_read(payloads(opened@)), total_tokens as nat, cap as nat),
{
    let bids = read_bids(opened);
    resolve(&bids, total_tokens, cap)
}

/// The bid that an outcome of opening holds: the bid of its payload, and none
/// where nothing was opened.
pub open spec fn outcome_bid(outcome: Option<Seq<u8>>) -> Option<BidView> {
    match outcome {
        Some(plain) => payload_bid(plain),
        None => None,
    }
}

/// Opens and reads one sealed bid. The bid is given up where its text is no
/// hexadecimal, the cipher rejects it, or what it holds is no bid.
///
/// Whatever the cipher made of the sealed bid, the result is the bid that
/// this outcome holds.
pub fn decode_bid(sealed: &str, secret_key: &[u8]) -> (bid: Option<DecryptedBid>)
    ensures
        hex_decoded(sealed@) is None ==> bid is None,
        exists|outcome: Option<Seq<u8>>|
            #[trigger] may_unseal(secret_key@, sealed@, outcome) && bid_view(bid) == outcome_bid(
                outcome,
            ),
{
    let plain = open_bid(sealed, secret_key);
    assert(may_unseal(secret_key@, sealed@, outcome_view(plain)));
    match plain {
        Some(bytes) => read_bid(bytes.as_slice()),
        None => None,
    }
}

/// Resolves an auction: opens the sealed bids with the resolver's secret key,
/// reads them, ranks the bidders and allocates the supply under the cap.
///
/// Whatever the cipher made of each sealed bid, the result is the resolution
/// of the bids that could be read; a bid that is no hexadecimal is never
/// among them.
pub fn solve_auction(request: &SolveRequest, secret_key: &[u8]) -> (result: AuctionResult)
    ensures
        exists|opened: Seq<Option<Seq<u8>>>|
            opens_to(request.encrypted_bids@, opened) && result@ == #[trigger] resolution(
                bids_read(opened),
                request.total_tokens as nat,
                request.cap as nat,
            ),
{
    let opened = open_bids(&request.encrypted_bids, secret_key);
    resolve_opened(&opened, request.total_tokens, request.cap)
}

} // verus!
