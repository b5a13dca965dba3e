use exchange::order::{BookError, OpenLimitOrder, Side, Symbol};
use exchange::order_book::OrderBook;
use std::collections::VecDeque;
use uuid::Uuid;

fn id(text: &str) -> u128 {
    Uuid::parse_str(text).unwrap().as_u128()
}

fn assert_order(expected: &OpenLimitOrder, actual: &OpenLimitOrder) {
    assert_eq!(expected.amount, actual.amount);
    assert_eq!(expected.price, actual.price);
    assert_eq!(expected.side, actual.side);
    if expected.id != Uuid::nil().as_u128() {
        assert_eq!(expected.id, actual.id);
    }
}

fn assert_order_queue(expected: &VecDeque<OpenLimitOrder>, actual: &VecDeque<OpenLimitOrder>) {
    assert_eq!(expected.len(), actual.len());
    for i in 0..expected.len() {
        assert_order(expected.get(i).unwrap(), actual.get(i).unwrap());
    }
}

fn assert_order_book(
    expected: Vec<VecDeque<OpenLimitOrder>>,
    actual: Vec<VecDeque<OpenLimitOrder>>,
) {
    assert_eq!(expected.len(), actual.len());
    for i in 0..expected.len() {
        assert_order_queue(&expected[i], &actual[i])
    }
}

fn buy(id_text: &str, amount: u32, price: u32) -> OpenLimitOrder {
    OpenLimitOrder { id: id(id_text), amount, symbol: Symbol::AAPL, side: Side::Buy, price }
}

struct TestCase {
    add: Vec<OpenLimitOrder>,
    expected_after_add: Vec<VecDeque<OpenLimitOrder>>,
    remove: Vec<OpenLimitOrder>,
    expected_after_remove: Vec<VecDeque<OpenLimitOrder>>,
}

#[test]
fn test_orders() {
    // Add all the orders, compare the book; remove the named orders,
    // compare the book again.
    let test_cases = vec![
        // Single add remove
        TestCase {
            add: vec![OpenLimitOrder {
                id: id("00000000-0000-0000-0000-000000000010"),
                amount: 10,
                symbol: Symbol::AAPL,
                side: Side::Buy,
                price: 5,
            }],
            expected_after_add: vec![VecDeque::from(vec![OpenLimitOrder {
                id: id("00000000-0000-0000-0000-000000000010"),
                amount: 10,
                symbol: Symbol::AAPL,
                side: Side::Buy,
                price: 5,
            }])],
            remove: vec![OpenLimitOrder {
                id: id("00000000-0000-0000-0000-000000000010"),
                amount: 10,
                symbol: Symbol::AAPL,
                side: Side::Buy,
                price: 5,
            }],
            expected_after_remove: Vec::new(),
        },
        // Same price should queue
        TestCase {
            add: vec![
                OpenLimitOrder {
                    id: id("00000000-0000-0000-0000-000000000010"),
                    amount: 10,
                    symbol: Symbol::AAPL,
                    side: Side::Buy,
                    price: 5,
                },
                OpenLimitOrder {
                    id: id("00000000-0000-0000-0000-000000000001"),
                    amount: 10,
                    symbol: Symbol::AAPL,
                    side: Side::Buy,
                    price: 5,
                },
            ],
            expected_after_add: vec![VecDeque::from(vec![
                OpenLimitOrder {
                    id: id("00000000-0000-0000-0000-000000000010"),
                    amount: 10,
                    symbol: Symbol::AAPL,
                    side: Side::Buy,
                    price: 5,
                },
                OpenLimitOrder {
                    id: id("00000000-0000-0000-0000-000000000001"),
                    amount: 10,
                    symbol: Symbol::AAPL,
                    side: Side::Buy,
                    price: 5,
                },
            ])],
            remove: vec![OpenLimitOrder {
                id: id("00000000-0000-0000-0000-000000000010"),
                amount: 10,
                symbol: Symbol::AAPL,
                side: Side::Buy,
                price: 5,
            }],
            expected_after_remove: vec![VecDeque::from(vec![OpenLimitOrder {
                id: id("00000000-0000-0000-0000-000000000001"),
                amount: 10,
                symbol: Symbol::AAPL,
                side: Side::Buy,
                price: 5,
            }])],
        },
        // Maintain sort
        TestCase {
            add: vec![
                OpenLimitOrder {
                    id: id("00000000-0000-0000-0000-000000000010"),
                    amount: 10,
                    symbol: Symbol::AAPL,
                    side: Side::Buy,
                    price: 4,
                },
                OpenLimitOrder {
                    id: id("00000000-0000-0000-0000-000000000001"),
                    amount: 10,
                    symbol: Symbol::AAPL,
                    side: Side::Buy,
                    price: 5,
                },
            ],
            expected_after_add: vec![
                VecDeque::from(vec![OpenLimitOrder {
                    id: id("00000000-0000-0000-0000-000000000001"),
                    amount: 10,
                    symbol: Symbol::AAPL,
                    side: Side::Buy,
                    price: 5,
                }]),
                VecDeque::from(vec![OpenLimitOrder {
                    id: id("00000000-0000-0000-0000-000000000010"),
                    amount: 10,
                    symbol: Symbol::AAPL,
                    side: Side::Buy,
                    price: 4,
                }]),
            ],
            remove: Vec::new(),
            expected_after_remove: vec![
                VecDeque::from(vec![OpenLimitOrder {
                    id: id("00000000-0000-0000-0000-000000000001"),
                    amount: 10,
                    symbol: Symbol::AAPL,
                    side: Side::Buy,
                    price: 5,
                }]),
                VecDeque::from(vec![OpenLimitOrder {
                    id: id("00000000-0000-0000-0000-000000000010"),
                    amount: 10,
                    symbol: Symbol::AAPL,
                    side: Side::Buy,
                    price: 4,
                }]),
            ],
        },
    ];
    for tc in test_cases.iter() {
        let mut buy_ob = OrderBook::new(Side::Buy);
        for &to_add in tc.add.iter() {
            let result = buy_ob.add_order(to_add);
            assert!(!result.is_err());
        }
        assert_order_book(buy_ob.get_book(), tc.expected_after_add.clone());
        for &to_remove in tc.remove.iter() {
            let result = buy_ob.remove_order(to_remove);
            assert!(!result.is_err());
        }
        assert_order_book(buy_ob.get_book(), tc.expected_after_remove.clone());
    }
}

fn prices(book: &OrderBook) -> Vec<u32> {
    book.get_book().iter().map(|level| level[0].price).collect()
}

#[test]
fn buy_levels_descend() {
    let mut book = OrderBook::new(Side::Buy);
    for (n, price) in [5u32, 6, 4].iter().enumerate() {
        let order = OpenLimitOrder {
            id: n as u128 + 1,
            amount: 1,
            symbol: Symbol::MSFT,
            side: Side::Buy,
            price: *price,
        };
        assert_eq!(book.add_order(order), Ok(order));
    }
    assert_eq!(prices(&book), vec![6, 5, 4]);
}

#[test]
fn sell_levels_ascend() {
    let mut book = OrderBook::new(Side::Sell);
    for (n, price) in [5u32, 6, 4, 6, 1, 9].iter().enumerate() {
        let order = OpenLimitOrder {
            id: n as u128 + 1,
            amount: 1,
            symbol: Symbol::AMZN,
            side: Side::Sell,
            price: *price,
        };
        assert_eq!(book.add_order(order), Ok(order));
    }
    assert_eq!(prices(&book), vec![1, 4, 5, 6, 9]);
    let levels = book.get_book();
    assert_eq!(levels[3].len(), 2);
    assert_eq!(levels[3][0].id, 2);
    assert_eq!(levels[3][1].id, 4);
}

#[test]
fn same_price_keeps_arrival_order() {
    let mut book = OrderBook::new(Side::Buy);
    let first = buy("00000000-0000-0000-0000-0000000000a1", 3, 7);
    let second = buy("00000000-0000-0000-0000-0000000000a2", 4, 7);
    let third = buy("00000000-0000-0000-0000-0000000000a3", 5, 7);
    book.add_order(first).unwrap();
    book.add_order(buy("00000000-0000-0000-0000-0000000000b1", 1, 8)).unwrap();
    book.add_order(second).unwrap();
    book.add_order(third).unwrap();
    let levels = book.get_book();
    assert_eq!(levels.len(), 2);
    assert_eq!(levels[1], VecDeque::from(vec![first, second, third]));
}

#[test]
fn add_turns_down_the_other_side() {
    let mut book = OrderBook::new(Side::Buy);
    book.add_order(buy("00000000-0000-0000-0000-000000000001", 2, 3)).unwrap();
    let before = book.get_book();
    let ask = OpenLimitOrder { id: 9, amount: 1, symbol: Symbol::AAPL, side: Side::Sell, price: 3 };
    assert_eq!(book.add_order(ask), Err(BookError::WrongSide));
    assert_eq!(book.get_book(), before);
    let mut asks = OrderBook::new(Side::Sell);
    assert_eq!(
        asks.add_order(buy("00000000-0000-0000-0000-000000000001", 2, 3)),
        Err(BookError::WrongSide)
    );
    assert!(asks.get_book().is_empty());
}

#[test]
fn add_gives_an_identifier_to_an_order_without_one() {
    let mut book = OrderBook::new(Side::Buy);
    let anonymous =
        OpenLimitOrder { id: 0, amount: 2, symbol: Symbol::AAPL, side: Side::Buy, price: 3 };
    let first = book.add_order(anonymous).unwrap();
    let second = book.add_order(anonymous).unwrap();
    for resting in [first, second] {
        assert_ne!(resting.id, 0);
        assert!(!Uuid::from_u128(resting.id).is_nil());
        assert_eq!(Uuid::from_u128(resting.id).get_version_num(), 4);
        assert_eq!(resting.id & exchange::ids::ID_KIND_MASK, exchange::ids::ID_KIND_RANDOM);
        assert_eq!(OpenLimitOrder { id: 0, ..resting }, anonymous);
    }
    assert_ne!(first.id, second.id);
    assert_eq!(book.get_book(), vec![VecDeque::from(vec![first, second])]);
}

#[test]
fn add_keeps_a_given_identifier() {
    let mut book = OrderBook::new(Side::Sell);
    let ask = OpenLimitOrder {
        id: id("a1a2a3a4-b1b2-c1c2-d1d2-d3d4d5d6d7d8"),
        amount: 2,
        symbol: Symbol::AAPL,
        side: Side::Sell,
        price: 3,
    };
    assert_eq!(ask.id, 0xa1a2a3a4b1b2c1c2d1d2d3d4d5d6d7d8);
    assert_eq!(book.add_order(ask), Ok(ask));
}

#[test]
fn remove_drops_an_emptied_level() {
    let mut book = OrderBook::new(Side::Buy);
    let lone = buy("00000000-0000-0000-0000-000000000005", 1, 5);
    book.add_order(buy("00000000-0000-0000-0000-000000000006", 1, 6)).unwrap();
    book.add_order(lone).unwrap();
    book.add_order(buy("00000000-0000-0000-0000-000000000004", 1, 4)).unwrap();
    assert_eq!(prices(&book), vec![6, 5, 4]);
    assert_eq!(book.remove_order(lone), Ok(()));
    assert_eq!(prices(&book), vec![6, 4]);
    assert!(book.get_book().iter().all(|level| !level.is_empty()));
}

#[test]
fn remove_of_an_absent_order_changes_nothing() {
    let mut book = OrderBook::new(Side::Buy);
    book.add_order(buy("00000000-0000-0000-0000-000000000006", 1, 6)).unwrap();
    book.add_order(buy("00000000-0000-0000-0000-000000000005", 2, 5)).unwrap();
    let before = book.get_book();
    let stranger = buy("00000000-0000-0000-0000-000000000099", 1, 6);
    assert_eq!(book.remove_order(stranger), Err(BookError::NotFound));
    assert_eq!(book.get_book(), before);
    assert_eq!(book.remove_order(stranger), Err(BookError::NotFound));
    assert_eq!(book.get_book(), before);
    let mut empty = OrderBook::new(Side::Sell);
    assert_eq!(empty.remove_order(stranger), Err(BookError::NotFound));
}

#[test]
fn remove_goes_by_the_identifier_alone() {
    let mut book = OrderBook::new(Side::Buy);
    let resting = buy("00000000-0000-0000-0000-000000000006", 1, 6);
    book.add_order(resting).unwrap();
    let same_id = OpenLimitOrder { amount: 77, price: 1, symbol: Symbol::MSFT, ..resting };
    assert_eq!(book.remove_order(same_id), Ok(()));
    assert!(book.get_book().is_empty());
}

#[test]
fn find_order_gives_level_and_place() {
    let mut book = OrderBook::new(Side::Buy);
    let a = buy("00000000-0000-0000-0000-00000000000a", 1, 6);
    let b = buy("00000000-0000-0000-0000-00000000000b", 1, 5);
    let c = buy("00000000-0000-0000-0000-00000000000c", 1, 5);
    for order in [a, b, c] {
        book.add_order(order).unwrap();
    }
    assert_eq!(book.find_order(a), (Some(0), Some(0)));
    assert_eq!(book.find_order(b), (Some(1), Some(0)));
    assert_eq!(book.find_order(c), (Some(1), Some(1)));
    assert_eq!(book.find_order(buy("00000000-0000-0000-0000-00000000000d", 1, 5)), (None, None));
}

#[test]
fn find_order_takes_the_first_of_equal_identifiers() {
    let mut book = OrderBook::new(Side::Buy);
    let twin = buy("00000000-0000-0000-0000-00000000000a", 1, 5);
    book.add_order(twin).unwrap();
    book.add_order(OpenLimitOrder { price: 6, ..twin }).unwrap();
    book.add_order(twin).unwrap();
    assert_eq!(book.find_order(twin), (Some(0), Some(0)));
    assert_eq!(book.remove_order(twin), Ok(()));
    assert_eq!(book.find_order(twin), (Some(0), Some(0)));
    assert_eq!(prices(&book), vec![5]);
    assert_eq!(book.get_book()[0].len(), 2);
}

#[test]
fn snapshot_is_a_copy() {
    let mut book = OrderBook::new(Side::Buy);
    let a = buy("00000000-0000-0000-0000-00000000000a", 1, 6);
    book.add_order(a).unwrap();
    let mut snapshot = book.get_book();
    book.add_order(buy("00000000-0000-0000-0000-00000000000b", 1, 5)).unwrap();
    assert_eq!(snapshot, vec![VecDeque::from(vec![a])]);
    snapshot.clear();
    assert_eq!(book.get_book().len(), 2);
}

#[test]
fn index_in_queue() {
    let a = buy("00000000-0000-0000-0000-00000000000a", 1, 6);
    let b = buy("00000000-0000-0000-0000-00000000000b", 2, 6);
    let mut queue = VecDeque::from(vec![a, b, a]);
    assert_eq!(exchange::index_of_order_in_queue(a, &mut queue), Some(0));
    assert_eq!(exchange::index_of_order_in_queue(b, &mut queue), Some(1));
    let c = buy("00000000-0000-0000-0000-00000000000c", 2, 6);
    assert_eq!(exchange::index_of_order_in_queue(c, &mut queue), None);
    assert_eq!(queue, VecDeque::from(vec![a, b, a]));
    assert_eq!(exchange::index_of_order_in_queue(a, &mut VecDeque::new()), None);
}

#[test]
fn errors_in_words() {
    assert_eq!(BookError::WrongSide.message(), "wrong side");
    assert_eq!(BookError::NotFound.message(), "no such order");
    assert_eq!(
        BookError::CantFillPrice.message(),
        "Can't fill order, nothing available for that price"
    );
    assert_eq!(BookError::CantFillSize.message(), "Can't fill order, order too large");
    assert_eq!(exchange::order::ERR_CANT_FILL_PRICE, BookError::CantFillPrice.message());
    assert_eq!(exchange::order::ERR_CANT_FILL_SIZE, BookError::CantFillSize.message());
}

#[test]
fn removed_order_is_gone_where_identifiers_differ() {
    let mut book = OrderBook::new(Side::Sell);
    let orders: Vec<OpenLimitOrder> = (1..=6u32)
        .map(|n| OpenLimitOrder {
            id: n as u128,
            amount: n,
            symbol: Symbol::AMZN,
            side: Side::Sell,
            price: 10 + n % 3,
        })
        .collect();
    for order in orders.iter() {
        book.add_order(*order).unwrap();
    }
    for order in orders.iter() {
        assert_ne!(book.find_order(*order), (None, None));
        assert_eq!(book.remove_order(*order), Ok(()));
        assert_eq!(book.find_order(*order), (None, None));
        assert!(book.get_book().iter().all(|level| !level.is_empty()));
        assert!(book.get_book().iter().flatten().all(|resting| resting.amount > 0));
    }
    assert!(book.get_book().is_empty());
}
