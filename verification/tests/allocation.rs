use sealed_auction::allocate::{allocate, AllocationEntry};
use sealed_auction::bid::DecryptedBid;

const SUI: u64 = 1_000_000_000;

fn bid(bidder: &str, amount: u64, handle: &str) -> DecryptedBid {
    DecryptedBid { bidder: bidder.to_string(), amount, handle: handle.to_string() }
}

fn triples(entries: &[AllocationEntry]) -> Vec<(String, u64, u64)> {
    entries.iter().map(|e| (e.bidder.clone(), e.token_amount, e.payment_amount)).collect()
}

fn triple(bidder: &str, tokens: u64, payment: u64) -> (String, u64, u64) {
    (bidder.to_string(), tokens, payment)
}

#[test]
fn partial_fill_of_the_last_winner() {
    let bids = vec![bid("A", 80 * SUI, "alice-long"), bid("B", 50 * SUI, "bobby-long")];
    let entries = allocate(&bids, &vec![0, 1], 1000, 100 * SUI);
    assert_eq!(triples(&entries), vec![triple("A", 800, 80 * SUI), triple("B", 200, 20 * SUI)]);
}

#[test]
fn bids_are_served_in_the_order_given() {
    let bids = vec![bid("A", 80 * SUI, "a"), bid("B", 50 * SUI, "b")];
    let entries = allocate(&bids, &vec![1, 0], 1000, 100 * SUI);
    assert_eq!(triples(&entries), vec![triple("B", 500, 50 * SUI), triple("A", 500, 50 * SUI)]);
}

#[test]
fn nothing_is_left_for_bids_behind_the_cap() {
    let bids = vec![bid("A", 100 * SUI, "a"), bid("B", 50 * SUI, "b"), bid("C", 1, "c")];
    let entries = allocate(&bids, &vec![0, 1, 2], 1000, 100 * SUI);
    assert_eq!(triples(&entries), vec![triple("A", 1000, 100 * SUI)]);
}

#[test]
fn a_bid_over_the_whole_cap_is_cut_to_it() {
    let bids = vec![bid("A", u64::MAX, "a")];
    let entries = allocate(&bids, &vec![0], u64::MAX, 7);
    assert_eq!(triples(&entries), vec![triple("A", u64::MAX, 7)]);
}

#[test]
fn shares_are_rounded_down() {
    let bids = vec![bid("A", 1, "a"), bid("B", 1, "b"), bid("C", 1, "c")];
    let entries = allocate(&bids, &vec![0, 1, 2], 100, 3);
    assert_eq!(triples(&entries), vec![triple("A", 33, 1), triple("B", 33, 1), triple("C", 33, 1)]);
    let tokens: u64 = entries.iter().map(|e| e.token_amount).sum();
    assert!(tokens <= 100);
}

#[test]
fn a_share_of_no_token_gets_no_entry_but_uses_headroom() {
    // 5 of 1000 sub-units earn 5 * 100 / 1000 = 0 tokens.
    let bids = vec![bid("small", 5, "a"), bid("large", 1000, "b")];
    let entries = allocate(&bids, &vec![0, 1], 100, 1000);
    // The large bid is left with 995 of headroom: 995 * 100 / 1000 = 99 tokens.
    assert_eq!(triples(&entries), vec![triple("large", 99, 995)]);
    let alone = allocate(&vec![bid("large", 1000, "b")], &vec![0], 100, 1000);
    assert_eq!(triples(&alone), vec![triple("large", 100, 1000)]);
}

#[test]
fn a_bid_of_nothing_gets_nothing() {
    let bids = vec![bid("none", 0, "a"), bid("some", 10, "b")];
    let entries = allocate(&bids, &vec![0, 1], 100, 10);
    assert_eq!(triples(&entries), vec![triple("some", 100, 10)]);
}

#[test]
fn a_cap_of_zero_allocates_nothing() {
    let bids = vec![bid("A", 80, "a"), bid("B", 50, "b")];
    assert!(allocate(&bids, &vec![0, 1], 1000, 0).is_empty());
}

#[test]
fn a_supply_of_zero_allocates_nothing() {
    let bids = vec![bid("A", 80, "a"), bid("B", 50, "b")];
    assert!(allocate(&bids, &vec![0, 1], 0, 100).is_empty());
}

#[test]
fn no_bids_get_no_entries() {
    assert!(allocate(&vec![], &vec![], 1000, 100).is_empty());
    assert!(allocate(&vec![bid("A", 80, "a")], &vec![], 1000, 100).is_empty());
}

#[test]
fn a_bidder_may_win_twice() {
    let bids = vec![bid("A", 30, "a"), bid("A", 30, "a")];
    let entries = allocate(&bids, &vec![0, 1], 100, 100);
    assert_eq!(triples(&entries), vec![triple("A", 30, 30), triple("A", 30, 30)]);
}

#[test]
fn payments_stay_within_the_cap_and_tokens_within_the_supply() {
    let amounts: [u64; 7] = [13, 1, 999, 250, 3, 77, 500];
    let bids: Vec<DecryptedBid> = amounts.iter().map(|a| bid("x", *a, "h")).collect();
    let order: Vec<usize> = (0..bids.len()).collect();
    for cap in [0u64, 1, 12, 13, 14, 100, 1266, 1843, 5000] {
        for supply in [0u64, 1, 7, 1000, u64::MAX] {
            let entries = allocate(&bids, &order, supply, cap);
            let paid: u128 = entries.iter().map(|e| e.payment_amount as u128).sum();
            let tokens: u128 = entries.iter().map(|e| e.token_amount as u128).sum();
            assert!(paid <= cap as u128);
            assert!(tokens <= supply as u128);
            assert!(entries.iter().all(|e| e.token_amount > 0));
        }
    }
}

#[test]
fn the_largest_numbers_do_not_overflow() {
    let bids = vec![bid("A", u64::MAX, "a"), bid("B", u64::MAX, "b")];
    let entries = allocate(&bids, &vec![0, 1], u64::MAX, u64::MAX);
    assert_eq!(triples(&entries), vec![triple("A", u64::MAX, u64::MAX)]);
}
