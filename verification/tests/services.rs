use eterna::bench::{build_dense, run_bench, sweep_book};
use eterna::demo::{answer_or, answer_text, get_command, post_command, shown_or, shown_text};
use eterna::engine::{effects, place, Effect, Engine, EngineCmd, EngineReply};
use eterna::http::{engine_answer, gateway_answer, order_response, orderbook_url, orders_url};
use eterna::orderbook::OrderBook;
use eterna::session::{
    feed_step, link_step, watch_step, FeedAction, FeedEvent, LinkAction, LinkEvent, WatchAction,
    WatchEvent,
};
use eterna::{Fill, OrderBookSnapshot, PriceLevel, Side, SubmitOrderReq};

fn req(side: Side, price: u64, qty: u64) -> SubmitOrderReq {
    SubmitOrderReq { side, price, qty }
}

fn levels(levels: &[PriceLevel]) -> Vec<(u64, u64)> {
    levels.iter().map(|l| (l.price, l.qty)).collect()
}

fn submit(engine: &mut Engine, req: SubmitOrderReq) -> (u64, Vec<Fill>) {
    match engine.handle(EngineCmd::Submit(req)) {
        Some(EngineReply::Submitted { id, fills }) => (id, fills),
        other => panic!("unexpected reply {other:?}"),
    }
}

fn snapshot(engine: &mut Engine) -> OrderBookSnapshot {
    match engine.handle(EngineCmd::Snapshot) {
        Some(EngineReply::Snapshot(snapshot)) => snapshot,
        other => panic!("unexpected reply {other:?}"),
    }
}

fn a_fill() -> Fill {
    Fill { maker_order_id: 1, taker_order_id: 2, price: 3, qty: 4 }
}

#[test]
fn demo_walkthrough() {
    let mut engine = Engine::new();
    assert_eq!(submit(&mut engine, req(Side::Buy, 100, 10)).0, 1);
    assert_eq!(submit(&mut engine, req(Side::Sell, 105, 10)).0, 2);
    let book = snapshot(&mut engine);
    assert_eq!(levels(&book.bids), vec![(100, 10)]);
    assert_eq!(levels(&book.asks), vec![(105, 10)]);

    let (id, fills) = submit(&mut engine, req(Side::Sell, 100, 6));
    assert_eq!((id, fills.len()), (3, 1));
    let book = snapshot(&mut engine);
    assert_eq!(levels(&book.bids), vec![(100, 4)]);
    assert_eq!(levels(&book.asks), vec![(105, 10)]);

    let (id, fills) = submit(&mut engine, req(Side::Buy, 110, 10));
    assert_eq!(id, 4);
    assert_eq!((fills[0].maker_order_id, fills[0].taker_order_id), (2, 4));
    assert_eq!((fills[0].price, fills[0].qty), (105, 10));
    let book = snapshot(&mut engine);
    assert_eq!(levels(&book.bids), vec![(100, 4)]);
    assert!(book.asks.is_empty());
}

#[test]
fn engine_has_no_answer_when_a_total_overflows() {
    let mut engine = Engine::new();
    submit(&mut engine, req(Side::Sell, 1, u64::MAX));
    submit(&mut engine, req(Side::Sell, 1, 1));
    assert!(engine.handle(EngineCmd::Snapshot).is_none());
}

#[test]
fn placing_gives_fresh_ids() {
    let mut book = OrderBook::new();
    let (id, fills) = place(&mut book, &req(Side::Buy, 10, 2)).unwrap();
    assert_eq!((id, fills.len()), (1, 0));
    let (id, fills) = place(&mut book, &req(Side::Sell, 9, 1)).unwrap();
    assert_eq!(id, 2);
    assert_eq!((fills[0].maker_order_id, fills[0].taker_order_id), (1, 2));
    assert_eq!((fills[0].price, fills[0].qty), (10, 1));
}

#[test]
fn dense_book_has_ten_levels_a_side() {
    let mut book = OrderBook::new();
    build_dense(&mut book, 10);
    let snapshot = book.snapshot();
    let bids: Vec<(u64, u64)> = (0..10).rev().map(|i| (90 + i, 5 + i % 5)).collect();
    let asks: Vec<(u64, u64)> = (0..10).map(|i| (100 + i, 5 + i % 5)).collect();
    assert_eq!(levels(&snapshot.bids), bids);
    assert_eq!(levels(&snapshot.asks), asks);
}

#[test]
fn first_sweep_round_buys_then_replenishes() {
    let mut book = OrderBook::new();
    sweep_book(&mut book, 1);
    // The buy of 3 at 115 rests and meets the first replenishing sell.
    let snapshot = book.snapshot();
    let bids: Vec<(u64, u64)> = (0..10).rev().map(|i| (90 + i, 10)).collect();
    assert_eq!(levels(&snapshot.bids), bids);
    assert_eq!(snapshot.asks[0].price, 100);
    assert_eq!(snapshot.asks[0].qty, 7);
    assert_eq!(snapshot.asks.len(), 10);
    assert_eq!(book.next_id(), 22);
}

#[test]
fn benchmark_leaves_a_sorted_uncrossed_book() {
    let snapshot = run_bench();
    assert!(snapshot.bids.windows(2).all(|w| w[0].price > w[1].price));
    assert!(snapshot.asks.windows(2).all(|w| w[0].price < w[1].price));
    if let (Some(bid), Some(ask)) = (snapshot.bids.first(), snapshot.asks.first()) {
        assert!(bid.price < ask.price);
    }
}

#[test]
fn feed_forwards_until_either_end_is_gone() {
    match feed_step(FeedEvent::Received(a_fill())) {
        FeedAction::Send(fill) => assert_eq!((fill.price, fill.qty), (3, 4)),
        other => panic!("unexpected action {other:?}"),
    }
    assert!(matches!(feed_step(FeedEvent::Started), FeedAction::Await));
    assert!(matches!(feed_step(FeedEvent::Lagged), FeedAction::Await));
    assert!(matches!(feed_step(FeedEvent::NotEncoded), FeedAction::Await));
    assert!(matches!(feed_step(FeedEvent::Sent), FeedAction::Await));
    assert!(matches!(feed_step(FeedEvent::Closed), FeedAction::Stop));
    assert!(matches!(feed_step(FeedEvent::SendFailed), FeedAction::Stop));
}

#[test]
fn link_reconnects_after_every_loss() {
    for lost in [
        LinkEvent::ConnectFailed,
        LinkEvent::Closed,
        LinkEvent::Errored,
        LinkEvent::Ended,
    ] {
        assert!(matches!(link_step(lost), LinkAction::Sleep { secs: 1 }));
    }
    assert!(matches!(link_step(LinkEvent::Woke), LinkAction::Connect));
    assert!(matches!(link_step(LinkEvent::Started), LinkAction::Connect));
}

#[test]
fn link_publishes_fills_and_skips_the_rest() {
    match link_step(LinkEvent::Text(Some(a_fill()))) {
        LinkAction::Publish(fill) => assert_eq!(fill.maker_order_id, 1),
        other => panic!("unexpected action {other:?}"),
    }
    for passed in [
        LinkEvent::Connected,
        LinkEvent::Text(None),
        LinkEvent::OtherFrame,
        LinkEvent::Published,
    ] {
        assert!(matches!(link_step(passed), LinkAction::Read));
    }
}

#[test]
fn watcher_shows_text_until_the_end() {
    match watch_step(WatchEvent::Text("{\"qty\":1}".to_string())) {
        WatchAction::Show(text) => assert_eq!(text, "{\n  \"qty\": 1\n}"),
        other => panic!("unexpected action {other:?}"),
    }
    for passed in [WatchEvent::Connected, WatchEvent::OtherFrame, WatchEvent::Shown] {
        assert!(matches!(watch_step(passed), WatchAction::Read));
    }
    for over in [
        WatchEvent::ConnectFailed,
        WatchEvent::Closed,
        WatchEvent::Errored,
        WatchEvent::Ended,
    ] {
        assert!(matches!(watch_step(over), WatchAction::Stop));
    }
}

#[test]
fn json_is_laid_out_and_other_text_is_not() {
    assert_eq!(shown_text("[1,{\"a\":null}]"), "[\n  1,\n  {\n    \"a\": null\n  }\n]");
    assert_eq!(shown_text("{\"price\":1"), "{\"price\":1");
    assert_eq!(shown_text("hello"), "hello");
    assert_eq!(shown_text(""), "");
}

#[test]
fn shown_text_falls_back_to_the_frame() {
    assert_eq!(shown_or(Some("laid out".to_string()), "raw"), "laid out");
    assert_eq!(shown_or(None, "raw"), "raw");
}

#[test]
fn answers_have_to_be_json() {
    assert_eq!(answer_text("{\"id\":7}", "/orders").unwrap(), "{\n  \"id\": 7\n}");
    assert_eq!(answer_text("oops", "/orders").unwrap_err(), "invalid JSON from /orders");
    assert_eq!(answer_or(Some("x".to_string()), "/p").unwrap(), "x");
    assert_eq!(answer_or(None, "/p").unwrap_err(), "invalid JSON from /p");
}

#[test]
fn commands_are_spelled_out() {
    assert_eq!(
        post_command("http://h", "buy", 100, 10),
        "$ curl -s -X POST http://h/orders \\\n\t-H 'Content-Type: application/json' \\\n\t\
         -d '{\"side\":\"buy\",\"price\":100,\"qty\":10}'"
    );
    assert!(post_command("", "sell", u64::MAX, 0)
        .ends_with("{\"side\":\"sell\",\"price\":18446744073709551615,\"qty\":0}'"));
    assert_eq!(get_command("http://h"), "$ curl -s http://h/orderbook");
}

#[test]
fn fills_are_published_before_the_answer() {
    let mut engine = Engine::new();
    submit(&mut engine, req(Side::Sell, 5, 1));
    submit(&mut engine, req(Side::Sell, 6, 1));
    let reply = engine.handle(EngineCmd::Submit(req(Side::Buy, 6, 2))).unwrap();
    let done = effects(reply);
    assert_eq!(done.len(), 3);
    assert!(matches!(&done[0], Effect::Publish(f) if f.maker_order_id == 1 && f.price == 5));
    assert!(matches!(&done[1], Effect::Publish(f) if f.maker_order_id == 2 && f.price == 6));
    assert!(matches!(&done[2], Effect::AnswerOrder { id: 3, fills } if fills.len() == 2));

    let done = effects(engine.handle(EngineCmd::Snapshot).unwrap());
    assert_eq!(done.len(), 1);
    assert!(matches!(&done[0], Effect::AnswerSnapshot(s) if s.bids.is_empty()));
}

#[test]
fn feed_sends_each_fill_once_and_ignores_lag() {
    // A scripted feed: two fills around a lag, a fill that cannot be written, a failed send.
    let mut script = vec![
        FeedEvent::Received(a_fill()),
        FeedEvent::Sent,
        FeedEvent::Lagged,
        FeedEvent::Received(a_fill()),
        FeedEvent::NotEncoded,
        FeedEvent::Received(a_fill()),
        FeedEvent::SendFailed,
        FeedEvent::Received(a_fill()),
    ]
    .into_iter();
    let mut tried = 0;
    let mut event = FeedEvent::Started;
    loop {
        match feed_step(event) {
            FeedAction::Await => {}
            FeedAction::Send(_) => tried += 1,
            FeedAction::Stop => break,
        }
        event = script.next().unwrap();
    }
    assert_eq!(tried, 3);
    assert_eq!(script.count(), 1);
}

#[test]
fn failures_keep_their_message() {
    let failure = engine_answer::<u8>(Err("channel closed".to_string())).unwrap_err();
    assert_eq!((failure.status, failure.message.as_str()), (500, "channel closed"));
    let failure = gateway_answer::<u8>(Err("refused".to_string())).unwrap_err();
    assert_eq!((failure.status, failure.message.as_str()), (502, "refused"));
    assert_eq!(engine_answer(Ok(3)).unwrap(), 3);
    assert_eq!(gateway_answer(Ok(4)).unwrap(), 4);
}

#[test]
fn urls_are_below_the_base() {
    assert_eq!(orders_url("http://localhost:9000"), "http://localhost:9000/orders");
    assert_eq!(orderbook_url("http://h"), "http://h/orderbook");
}

#[test]
fn order_response_carries_the_id_only() {
    assert_eq!(order_response((9, vec![a_fill()])).id, 9);
}
