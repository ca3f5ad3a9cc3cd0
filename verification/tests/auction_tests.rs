use infinite_auction::{Bid, Currency, Second, Token, SECONDS_PER_DAY};
use infinite_auction::{find_end, run_auction, valid_bids, winning_bid};

fn day(n: u64) -> Second {
    Second::from(n * SECONDS_PER_DAY)
}

/// `left` and `right` differ by less than `bound`.
fn almost_eq(left: u64, right: u64, bound: u64) -> bool {
    if left >= right {
        left - right < bound
    } else {
        right - left < bound
    }
}

#[test]
fn winning_bid_first_come() {
    let bids = vec![
        Bid {
            bid: Currency::from(5_00),
            expense_limit: Currency::from(25_00).mul_second(Second::from(SECONDS_PER_DAY)),
            expiry: Second::from(9001), // that's impossible!
            data: "Winner",
        },
        Bid {
            bid: Currency::from(1_00),
            expense_limit: Currency::from(5_00).mul_second(Second::from(SECONDS_PER_DAY)),
            expiry: Second::from(9002), // more impossible!
            data: "No chance",
        },
        Bid {
            bid: Currency::from(5_00),
            expense_limit: Currency::from(10).mul_second(Second::from(SECONDS_PER_DAY)),
            expiry: Second::from(9400), // crazy!
            data: "Sadly not",
        },
    ];
    let (winner, bid, _expiry) =
        winning_bid(&bids, Currency::from(10), Currency::from(0)).unwrap();
    assert_eq!(bids[winner].data, "Winner");
    assert_eq!(bid, Currency::from(5_00));
}

#[test]
fn winning_bid_no_bid() {
    let bids: Vec<Bid<()>> = vec![];
    assert!(winning_bid(&bids, Currency::from(2362), Currency::from(311)).is_none());
}

#[test]
fn winning_bid_one_bid() {
    let bids = vec![Bid {
        bid: Currency::from(5_00),
        expense_limit: Currency::from(90_00).mul_second(Second::from(SECONDS_PER_DAY)),
        expiry: Second::from(3),
        data: "Winner",
    }];
    let (winner, bid, _expiry) =
        winning_bid(&bids, Currency::from(10), Currency::from(0)).unwrap();
    assert_eq!(bids[winner].data, "Winner");
    assert_eq!(bid, Currency::from(0))
}

#[test]
fn winning_bid_equal_rates_first_wins() {
    // Tie-break is stable input order: of two equal-rate bids that can both
    // afford the auction, the earlier one wins, paying its full rate (the
    // other contests it up to rate + increment).
    let bids = vec![
        Bid {
            bid: Currency::from(3_00),
            expense_limit: Token::from(1_000_000),
            expiry: Second::from(5_000),
            data: "first",
        },
        Bid {
            bid: Currency::from(3_00),
            expense_limit: Token::from(1_000_000),
            expiry: Second::from(6_000),
            data: "second",
        },
    ];
    let (winner, price, horizon) =
        winning_bid(&bids, Currency::from(10), Currency::from(0)).unwrap();
    assert_eq!(bids[winner].data, "first");
    assert_eq!(price, Currency::from(3_00));
    assert_eq!(horizon, Second::from(5_000));
}

#[test]
fn valid_bids_static() {
    let bids = [
        Bid {
            bid: Currency::from(0_00),
            expense_limit: Currency::from(1_00).mul_second(Second::from(SECONDS_PER_DAY)),
            expiry: day(1).add(Second::from(500)),
            data: "Invalid",
        },
        Bid {
            bid: Currency::from(10_00),
            expense_limit: Token::from(0),
            expiry: day(1).add(Second::from(200)),
            data: "Invalid",
        },
        Bid {
            bid: Currency::from(4_50),
            expense_limit: Currency::from(26_00).mul_second(Second::from(SECONDS_PER_DAY)),
            expiry: day(1).add(Second::from(800)),
            data: "Valid #1",
        },
        Bid {
            bid: Currency::from(63_00),
            expense_limit: Currency::from(2_40).mul_second(Second::from(SECONDS_PER_DAY)),
            expiry: day(1).sub(Second::from(124)),
            data: "Invalid",
        },
        Bid {
            bid: Currency::from(84_50),
            expense_limit: Currency::from(68_20).mul_second(Second::from(SECONDS_PER_DAY)),
            expiry: day(1).add(Second::from(620)),
            data: "Valid #2",
        },
    ];
    let output = valid_bids(&bids, Second::from(SECONDS_PER_DAY));
    assert_eq!(
        output.into_iter().map(|bid| bid.data).collect::<Vec<&str>>(),
        vec!["Valid #1", "Valid #2"]
    );
}

#[test]
fn find_end_valid() {
    for amount in (0..1_000u64).step_by(73) {
        for limit in (0..300_000_000_000_000u64).step_by(772_757_382_975) {
            for now in (0..3_000_000_000_000u64).step_by(548_795_182_242) {
                for expiry in (now + 1..3_000_000_000_000u64).step_by(5_647_289_173_652) {
                    let amount = Currency::from(amount);
                    let limit = Token::from(limit);
                    let now = Second::from(now);
                    let expiry = Second::from(expiry);
                    let (finish, spent) = find_end(amount, limit, expiry, now);
                    // Sanity
                    assert!(finish <= expiry, "{:?} > {:?}", finish, expiry);
                    assert!(finish >= now, "{:?} < {:?}", finish, now);

                    // Validity
                    assert!(
                        amount.mul_second(finish.sub(now)) <= limit,
                        "{:?} * ({:?} - {:?}) > {:?}",
                        amount,
                        finish,
                        now,
                        limit
                    );
                    assert!(spent <= limit, "{:?} > {:?}", spent, limit);

                    if finish < expiry {
                        // Didn't give up early for nothing
                        // Not possible to have spent more
                        assert!(
                            limit.sub(spent).0 < amount.0,
                            "{:?} - {:?} < {:?}; money unspent",
                            limit,
                            spent,
                            amount
                        );
                    } else {
                        // Spent the right amount of money
                        assert!(
                            spent.div_second(expiry.sub(now)) == amount,
                            "{:?} / ({:?} - {:?}) != {:?}",
                            spent,
                            expiry,
                            now,
                            amount
                        );
                        assert!(
                            spent.rem_second(expiry.sub(now)) == Currency::from(0),
                            "{:?} % ({:?} - {:?}) != 0",
                            spent,
                            expiry,
                            now
                        );
                    }
                }
            }
        }
    }
}

#[test]
fn find_end_zero_rate_holds_to_deadline() {
    let (finish, spent) =
        find_end(Currency::from(0), Token::from(42), Second::from(900), Second::from(10));
    assert_eq!(finish, Second::from(900));
    assert_eq!(spent, Token::from(0));
}

#[test]
fn find_end_exhaustion_forfeits_remainder() {
    // 1000 tokens at 300 per unit buys 3 whole units; 100 tokens are
    // forfeited, and the charge stops strictly before the deadline.
    let (finish, spent) =
        find_end(Currency::from(300), Token::from(1_000), Second::from(50), Second::from(7));
    assert_eq!(finish, Second::from(10));
    assert_eq!(spent, Token::from(900));
}

/// Alice starts out and bids a maximum of $5 a day for a week.
/// Since she's the only bidder, her bid starts out at $0.
/// Free advertising!
#[test]
fn run_auction_alice_bids() {
    let bids = vec![Bid {
        bid: Currency::from(5_00),     // $5
        expense_limit: Token::from(42), // unspecified (should default
        // to 500 * 7 * N_PER_DAY)
        expiry: day(7),
        data: "Alice",
    }];
    let auction = run_auction(
        bids,
        Currency::from(0_10), // 10 cents
        Currency::from(0_00),
        Second::from(0), // t=0
    );
    assert_eq!(auction.len(), 1);

    // Alice starts out…
    let (alice, expiry, spent) = auction[0];
    assert_eq!(alice, "Alice");
    assert_eq!(expiry, day(7));
    assert_eq!(spent, Token::from(0));
}

/// Partario wants in! He sees Alice's bid of $0 and decides
/// he'll outbid her with a bid of $1 a day for one day.
/// He places his bid, but Alice's bid automatically outbids him.
///
/// A day later, Partario's bid expires, and Alice's bid
/// automatically drops back down to $0.
/// Free advertising!
#[test]
fn run_auction_partario_outbid() {
    let bids = vec![
        Bid {
            bid: Currency::from(5_00), // $5
            expense_limit: Currency::from(1_10) // $1.10
                .mul_second(Second::from(SECONDS_PER_DAY))
                .add(Token::from(42)),
            expiry: day(7),
            data: "Alice",
        },
        Bid {
            bid: Currency::from(1_00),      // $1
            expense_limit: Token::from(42), // 42 == unspecified
            expiry: day(1),
            data: "Partario",
        },
    ];
    let auction = run_auction(
        bids,
        Currency::from(10), // 10 cents
        Currency::from(0),
        Second::from(0), // t=0
    );
    assert_eq!(auction.len(), 2);

    // Partario wants in!…
    let (alice, expiry, spent) = auction[0];
    assert_eq!(alice, "Alice");
    assert_eq!(expiry, day(1));
    assert_eq!(spent, Currency::from(1_10).mul_second(Second::from(SECONDS_PER_DAY)));

    // A day later…
    let (alice, expiry, spent) = auction[1];
    assert_eq!(alice, "Alice");
    assert_eq!(expiry, day(7));
    assert_eq!(spent, Token::from(0));
}

/// Partario's back, and this time he decides to bid $100 a day
/// for a week, with an expense limit of $1. Alice is outbid!
/// Notice that Partario's bid only goes as high as it needs to
/// in order to defeat Alice.
///
/// Since Partario's bid is pretty big, but his expense limit is pretty
/// small, the $1 expense limit is very quickly reached. His bid was
/// charged at $5.10/day to a maximum of $1, so he got about five hours of
/// display time ($5.10/day is about 20 cents an hour) before
/// that $1 limit was reached.
///
/// His bid expires, and Alice's takes over again at $0.
/// Free advertising!
#[test]
fn run_auction_partarios_revenge() {
    let bids = vec![
        Bid {
            bid: Currency::from(5_00), // $5
            expense_limit: Token::from(42),
            expiry: day(7),
            data: "Alice",
        },
        Bid {
            bid: Currency::from(100_00), // $100
            expense_limit: Currency::from(1_00) // $1
                .mul_second(Second::from(SECONDS_PER_DAY)),
            expiry: day(1),
            data: "Partario",
        },
    ];
    let auction = run_auction(bids, Currency::from(10), Currency::from(0), Second::from(0));
    assert_eq!(auction.len(), 2);

    // Since Partario's bid…
    let (partario, expiry, spent) = auction[0];
    assert_eq!(partario, "Partario");
    assert!(almost_eq(expiry.0, SECONDS_PER_DAY / 24 * 5, SECONDS_PER_DAY / 24));
    assert!(almost_eq(
        spent.0,
        Currency::from(1_00).mul_second(Second::from(SECONDS_PER_DAY)).0, // $1
        10_000
    ));

    // His bid expires…
    let (alice, expiry, spent) = auction[1];
    assert_eq!(alice, "Alice");
    assert_eq!(expiry, day(7));
    assert_eq!(spent, Token::from(0));
}

/// Partario also decides to place a second bid, this time of $1 a day
/// for a week. This way, if his more expensive bid expires, he'll still
/// have a chance of his ad being shown at a rate he likes! This new bid
/// is outbid, but his older bid of $100 (max) is still the high bidder,
/// so his ad is being shown.
///
/// Since Partario's bid is pretty big, but his expense limit is pretty
/// small, the $1 expense limit is very quickly reached. His bid expires,
/// and once again Alice is the highest bidder. Partario's second bid of
/// $1 a day forces Alice's bid up a bit.
///
/// Finally, a week after she placed it, Alice's bid expiry date is
/// reached, and it expires. Partario's bid of $1 a day is now the high
/// bidder! Nobody else has bid, so: free advertising!
#[test]
fn run_auction_partarios_revenge_2() {
    let bids = vec![
        Bid {
            bid: Currency::from(5_00), // $5
            expense_limit: Currency::from(5_00)
                .mul_second(Second::from(7 * SECONDS_PER_DAY))
                .add(Token::from(42)),
            expiry: day(7),
            data: "Alice",
        },
        Bid {
            bid: Currency::from(100_00), // $100
            expense_limit: Currency::from(1_00) // $1
                .mul_second(Second::from(SECONDS_PER_DAY)),
            expiry: day(8), // started at 1d
            data: "Partario",
        },
        Bid {
            bid: Currency::from(1_00), // $1
            expense_limit: Token::from(42),
            expiry: day(8),
            data: "Partario2",
        },
    ];
    let auction = run_auction(
        bids,
        Currency::from(10), // 10 cents
        Currency::from(0),
        Second::from(SECONDS_PER_DAY), // t=1d
    );
    assert_eq!(auction.len(), 3);

    // Partario also decides…
    let (partario, expiry, spent) = auction[0];
    assert_eq!(partario, "Partario");
    assert!(almost_eq(expiry.0, SECONDS_PER_DAY / 24 * (24 + 5), SECONDS_PER_DAY / 24));
    assert!(almost_eq(
        spent.0,
        Currency::from(1_00).mul_second(Second::from(SECONDS_PER_DAY)).0, // $1
        10_000
    ));

    // Since Partario's bid…
    assert_eq!(
        auction[1],
        (
            "Alice",
            day(7),
            day(7).sub(expiry).mul_currency(Currency::from(1_10)) // $1.10
        )
    );

    // Finally, a week…
    assert_eq!(auction[2], ("Partario2", day(8), Token::from(0)));
}

#[test]
fn run_auction_none_can_bid() {
    let bids = vec![
        Bid {
            bid: Currency::from(5_00),
            expense_limit: Token::from(4_00),
            expiry: Second::from(10_000),
            data: "Can't pay.",
        },
        Bid {
            bid: Currency::from(5_00),
            expense_limit: Token::from(6_00),
            expiry: Second::from(10_000),
            data: "Can only pay once.",
        },
    ];
    let auction = run_auction(bids, Currency::from(10), Currency::from(4_60), Second::from(0));
    assert_eq!(auction.len(), 1);

    assert_eq!(auction[0], ("Can only pay once.", Second::from(1), Token::from(460)));
}

#[test]
fn run_auction_no_viable_bid_halts_empty() {
    // Every bid fails the affordability pre-check at the floor from the
    // start: the loop halts with no event at all.
    let bids = vec![
        Bid {
            bid: Currency::from(5_00),
            expense_limit: Token::from(99),
            expiry: Second::from(10_000),
            data: "broke",
        },
        Bid {
            bid: Currency::from(50),
            expense_limit: Token::from(1_000_000),
            expiry: Second::from(10_000),
            data: "under the floor",
        },
    ];
    let auction = run_auction(bids, Currency::from(10), Currency::from(1_00), Second::from(0));
    assert_eq!(auction.len(), 0);
}

#[test]
fn run_auction_clock_is_monotonic() {
    // Across a multi-event run, the recorded clock strictly increases.
    let bids = vec![
        Bid {
            bid: Currency::from(9_00),
            expense_limit: Token::from(5_000),
            expiry: Second::from(100_000),
            data: "big",
        },
        Bid {
            bid: Currency::from(4_00),
            expense_limit: Token::from(400_000),
            expiry: Second::from(50_000),
            data: "mid",
        },
        Bid {
            bid: Currency::from(1_00),
            expense_limit: Token::from(700_000),
            expiry: Second::from(90_000),
            data: "small",
        },
    ];
    let auction = run_auction(bids, Currency::from(10), Currency::from(0), Second::from(3));
    assert!(auction.len() >= 2);
    let mut last: u64 = 3;
    for &(_, at, spent) in auction.iter() {
        assert!(at.0 > last, "clock went backwards: {} then {}", last, at.0);
        let _ = spent;
        last = at.0;
    }
}
