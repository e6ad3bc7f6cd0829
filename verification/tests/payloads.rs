use sealed_auction::bid::DecryptedBid;
use sealed_auction::payload::{bid_from_members, read_bid, Member};

fn parts(bid: Option<DecryptedBid>) -> Option<(String, u64, String)> {
    bid.map(|b| (b.bidder, b.amount, b.handle))
}

fn some(bidder: &str, amount: u64, handle: &str) -> Option<(String, u64, String)> {
    Some((bidder.to_string(), amount, handle.to_string()))
}

#[test]
fn a_bid_is_read_from_its_three_members() {
    let plain = br#"{"bidder":"0xabc","amount":80,"handle":"whale_1"}"#;
    assert_eq!(parts(read_bid(plain)), some("0xabc", 80_000_000_000, "whale_1"));
}

#[test]
fn the_order_of_the_members_does_not_matter() {
    let plain = br#" { "handle" : "bob", "amount" : 1.5, "bidder" : "B" } "#;
    assert_eq!(parts(read_bid(plain)), some("B", 1_500_000_000, "bob"));
}

#[test]
fn other_members_are_passed_over() {
    let plain = br#"{"bidder":"A","amount":2,"handle":"h","note":[1,2,{"x":null}],"amount2":"7"}"#;
    assert_eq!(parts(read_bid(plain)), some("A", 2_000_000_000, "h"));
}

#[test]
fn amounts_are_read_as_the_numbers_they_are() {
    for (text, amount) in [
        ("0", 0u64),
        ("80.5", 80_500_000_000),
        ("0.1", 100_000_000),
        ("0.000000001", 1),
        ("1e-9", 1),
        ("1e-7", 100),
        ("1e-10", 0),
        ("1E2", 100_000_000_000),
        ("1.25e+1", 12_500_000_000),
        ("12.345678901", 12_345_678_901),
        ("18446744073", 18_446_744_073_000_000_000),
        ("1e10", 10_000_000_000_000_000_000),
        ("123456.123456789", 123_456_123_456_789),
        ("-0", 0),
        ("-0.0", 0),
    ] {
        let plain = format!(r#"{{"bidder":"A","amount":{},"handle":"h"}}"#, text);
        assert_eq!(parts(read_bid(plain.as_bytes())), some("A", amount, "h"), "{}", text);
    }
}

#[test]
fn an_amount_that_is_no_amount_of_money_gives_no_bid() {
    for text in ["-1", "-0.5", "1e11", "18446744074", "1e300", "-1e-300"] {
        let plain = format!(r#"{{"bidder":"A","amount":{},"handle":"h"}}"#, text);
        assert!(read_bid(plain.as_bytes()).is_none(), "{}", text);
    }
}

#[test]
fn a_missing_member_gives_no_bid() {
    assert!(read_bid(br#"{"amount":80,"handle":"h"}"#).is_none());
    assert!(read_bid(br#"{"bidder":"A","handle":"h"}"#).is_none());
    assert!(read_bid(br#"{"bidder":"A","amount":80}"#).is_none());
    assert!(read_bid(br#"{}"#).is_none());
    assert!(read_bid(br#"{"Bidder":"A","Amount":80,"Handle":"h"}"#).is_none());
}

#[test]
fn a_member_of_the_wrong_kind_gives_no_bid() {
    assert!(read_bid(br#"{"bidder":7,"amount":80,"handle":"h"}"#).is_none());
    assert!(read_bid(br#"{"bidder":"A","amount":"80","handle":"h"}"#).is_none());
    assert!(read_bid(br#"{"bidder":"A","amount":80,"handle":null}"#).is_none());
    assert!(read_bid(br#"{"bidder":"A","amount":true,"handle":"h"}"#).is_none());
    assert!(read_bid(br#"{"bidder":["A"],"amount":80,"handle":"h"}"#).is_none());
    assert!(read_bid(br#"{"bidder":"A","amount":{"v":80},"handle":"h"}"#).is_none());
}

#[test]
fn what_is_no_object_gives_no_bid() {
    assert!(read_bid(br#"["A",80,"h"]"#).is_none());
    assert!(read_bid(br#""bidder""#).is_none());
    assert!(read_bid(b"80").is_none());
    assert!(read_bid(b"null").is_none());
}

#[test]
fn what_is_no_json_gives_no_bid() {
    assert!(read_bid(b"").is_none());
    assert!(read_bid(b"hello world").is_none());
    assert!(read_bid(br#"{"bidder":"A","amount":80,"handle":"h""#).is_none());
    assert!(read_bid(br#"{"bidder":"A","amount":80,"handle":"h"} trailing"#).is_none());
    assert!(read_bid(br#"{"bidder":"A","amount":080,"handle":"h"}"#).is_none());
    assert!(read_bid(br#"{"bidder":"A","amount":1e999,"handle":"h"}"#).is_none());
    assert!(read_bid(&[0x7b, 0x22, 0xff, 0x22, 0x3a, 0x31, 0x7d]).is_none());
}

#[test]
fn strings_are_taken_as_json_writes_them() {
    let plain = r#"{"bidder":"a\"b\\c\u00e9","amount":1,"handle":"🐋whale"}"#;
    assert_eq!(parts(read_bid(plain.as_bytes())), some("a\"b\\c\u{e9}", 1_000_000_000, "\u{1f40b}whale"));
}

#[test]
fn members_make_a_bid_only_if_all_three_fit() {
    let text = |s: &str| Some(Member::Text(s.to_string()));
    let number = |s: &str| Some(Member::Number(s.as_bytes().to_vec()));
    assert_eq!(parts(bid_from_members(text("A"), number("2.5"), text("h"))), some("A", 2_500_000_000, "h"));
    assert!(bid_from_members(None, number("2.5"), text("h")).is_none());
    assert!(bid_from_members(text("A"), None, text("h")).is_none());
    assert!(bid_from_members(text("A"), number("2.5"), None).is_none());
    assert!(bid_from_members(number("1"), number("2.5"), text("h")).is_none());
    assert!(bid_from_members(text("A"), text("2.5"), text("h")).is_none());
    assert!(bid_from_members(text("A"), number("2.5"), Some(Member::Other)).is_none());
    assert!(bid_from_members(text("A"), number("-2.5"), text("h")).is_none());
    assert!(bid_from_members(text("A"), number("2,5"), text("h")).is_none());
    assert!(bid_from_members(text("A"), number(""), text("h")).is_none());
}
