//! What the WebSocket tasks do next, given what just happened.
//!
//! Each task performs an action, and what comes of it is the next event.
use vstd::prelude::*;
use crate::demo::{laid_out, shown, shown_text};
use crate::types::Fill;

verus! {

/// What happens to a task that forwards fills to one client.
#[derive(Debug)]
pub enum FeedEvent {
    /// The task has just been started.
    Started,
    /// The feed delivered a fill.
    Received(Fill),
    /// The task fell behind and the feed dropped some fills.
    Lagged,
    /// The feed is closed.
    Closed,
    /// The fill could not be written as text.
    NotEncoded,
    /// The client got the fill.
    Sent,
    /// The client is gone.
    SendFailed,
}

/// What a task that forwards fills does next.
#[derive(Debug)]
pub enum FeedAction {
    /// Wait for the feed.
    Await,
    /// Write the fill as text and send it to the client.
    Send(Fill),
    /// End the task.
    Stop,
}

/// A fill is sent on; the task ends with the feed or with the client, and on nothing else.
pub open spec fn feed_action(event: FeedEvent) -> FeedAction {
    match event {
        FeedEvent::Received(fill) => FeedAction::Send(fill),
        FeedEvent::Closed | FeedEvent::SendFailed => FeedAction::Stop,
        _ => FeedAction::Await,
    }
}

/// The next step of a task that forwards fills.
pub fn feed_step(event: FeedEvent) -> (action: FeedAction)
    ensures
        action == feed_action(event),
{
    match event {
        FeedEvent::Received(fill) => FeedAction::Send(fill),
        FeedEvent::Closed => FeedAction::Stop,
        FeedEvent::SendFailed => FeedAction::Stop,
        FeedEvent::Started => FeedAction::Await,
        FeedEvent::Lagged => FeedAction::Await,
        FeedEvent::NotEncoded => FeedAction::Await,
        FeedEvent::Sent => FeedAction::Await,
    }
}

/// What became of a fill that was to be sent.
pub enum Delivery {
    Sent,
    NotEncoded,
    Failed,
}

/// One thing that the feed has for a client, with what became of it.
pub enum FeedItem {
    Received(Fill, Delivery),
    Lagged,
    Closed,
}

impl FeedItem {
    /// The event with which the item comes in.
    pub open spec fn arrival(self) -> FeedEvent {
        match self {
            FeedItem::Received(fill, _) => FeedEvent::Received(fill),
            FeedItem::Lagged => FeedEvent::Lagged,
            FeedItem::Closed => FeedEvent::Closed,
        }
    }

    /// The feed or the client is gone with this item.
    pub open spec fn is_final(self) -> bool {
        self is Closed || (self matches FeedItem::Received(_, delivery) && delivery is Failed)
    }
}

impl Delivery {
    /// The event that reports the delivery.
    pub open spec fn report(self) -> FeedEvent {
        match self {
            Delivery::Sent => FeedEvent::Sent,
            Delivery::NotEncoded => FeedEvent::NotEncoded,
            Delivery::Failed => FeedEvent::SendFailed,
        }
    }
}

/// What the steps of a forwarding task come to.
#[verifier::ext_equal]
pub struct FeedRun {
    /// The fills that the task tried to send, in order.
    pub tried: Seq<Fill>,
    /// The fills that the client got, in order.
    pub sent: Seq<Fill>,
    /// The task has ended.
    pub ended: bool,
}

/// Runs the steps of a forwarding task over what the feed has for its client.
pub open spec fn feed_run(items: Seq<FeedItem>) -> FeedRun
    decreases items.len(),
{
    if items.len() == 0 {
        FeedRun { tried: Seq::empty(), sent: Seq::empty(), ended: false }
    } else {
        let next = feed_run(items.drop_first());
        match (feed_action(items[0].arrival()), items[0]) {
            (FeedAction::Send(fill), FeedItem::Received(_, delivery)) => {
                let sent = if delivery is Sent {
                    seq![fill]
                } else {
                    Seq::empty()
                };
                if feed_action(delivery.report()) is Stop {
                    FeedRun { tried: seq![fill], sent, ended: true }
                } else {
                    FeedRun {
                        tried: seq![fill] + next.tried,
                        sent: sent + next.sent,
                        ended: next.ended,
                    }
                }
            },
            (FeedAction::Stop, _) => FeedRun {
                tried: Seq::empty(),
                sent: Seq::empty(),
                ended: true,
            },
            _ => next,
        }
    }
}

/// The items up to and with the first one with which the feed or the client is gone.
pub open spec fn until_final(items: Seq<FeedItem>) -> Seq<FeedItem>
    decreases items.len(),
{
    if items.len() == 0 {
        items
    } else if items[0].is_final() {
        seq![items[0]]
    } else {
        seq![items[0]] + until_final(items.drop_first())
    }
}

/// The fills among the items.
pub open spec fn received_fills(items: Seq<FeedItem>) -> Seq<Fill>
    decreases items.len(),
{
    if items.len() == 0 {
        Seq::empty()
    } else {
        (match items[0] {
            FeedItem::Received(fill, _) => seq![fill],
            _ => Seq::empty(),
        }) + received_fills(items.drop_first())
    }
}

/// The fills among the items that reached the client.
pub open spec fn sent_fills(items: Seq<FeedItem>) -> Seq<Fill>
    decreases items.len(),
{
    if items.len() == 0 {
        Seq::empty()
    } else {
        (match items[0] {
            FeedItem::Received(fill, Delivery::Sent) => seq![fill],
            _ => Seq::empty(),
        }) + sent_fills(items.drop_first())
    }
}

/// Every fill that the feed delivers is tried once and in order, and the client gets those
/// whose sending works, up to the first failed send or the closed feed. The task ends exactly
/// there.
pub proof fn feed_forwards_what_comes_in(items: Seq<FeedItem>)
    ensures
        feed_run(items).tried == received_fills(until_final(items)),
        feed_run(items).sent == sent_fills(until_final(items)),
        feed_run(items).ended <==> exists|i: int|
            0 <= i < items.len() && (#[trigger] items[i]).is_final(),
    decreases items.len(),
{
    if items.len() > 0 {
        let rest = items.drop_first();
        let reached = until_final(items);
        feed_forwards_what_comes_in(rest);
        let tried = feed_run(rest).tried;
        let sent = feed_run(rest).sent;
        assert(Seq::<Fill>::empty() + tried =~= tried);
        assert(Seq::<Fill>::empty() + sent =~= sent);
        if items[0].is_final() {
            assert(received_fills(reached.drop_first()) =~= Seq::empty());
            assert(sent_fills(reached.drop_first()) =~= Seq::empty());
            assert(feed_run(items).tried =~= received_fills(reached));
            assert(feed_run(items).sent =~= sent_fills(reached));
        } else {
            assert(reached.drop_first() =~= until_final(rest));
            if feed_run(rest).ended {
                let i = choose|i: int| 0 <= i < rest.len() && (#[trigger] rest[i]).is_final();
                assert(items[i + 1].is_final());
            }
            if exists|i: int| 0 <= i < items.len() && (#[trigger] items[i]).is_final() {
                let i = choose|i: int| 0 <= i < items.len() && (#[trigger] items[i]).is_final();
                assert(rest[i - 1].is_final());
            }
        }
    }
}

/// Falling behind sends nothing and ends nothing: the run is as if it had not happened.
pub proof fn feed_ignores_lag(items: Seq<FeedItem>, at: int)
    requires
        0 <= at <= items.len(),
    ensures
        feed_run(items.insert(at, FeedItem::Lagged)) == feed_run(items),
    decreases at,
{
    let lagged = items.insert(at, FeedItem::Lagged);
    if at == 0 {
        assert(lagged.drop_first() =~= items);
    } else {
        assert(lagged.drop_first() =~= items.drop_first().insert(at - 1, FeedItem::Lagged));
        feed_ignores_lag(items.drop_first(), at - 1);
    }
}

/// How long to wait before connecting again.
pub const RETRY_SECS: u64 = 1;

/// What happens to the task that subscribes to the engine's fills.
#[derive(Debug)]
pub enum LinkEvent {
    /// The task has just been started.
    Started,
    /// The engine accepted the connection.
    Connected,
    /// The connection could not be made.
    ConnectFailed,
    /// A text frame came in; it is a fill if it could be read as one.
    Text(Option<Fill>),
    /// A frame came in that is neither text nor a close.
    OtherFrame,
    /// The fill was handed to the local subscribers.
    Published,
    /// The engine closed the connection.
    Closed,
    /// The connection failed.
    Errored,
    /// There are no more frames.
    Ended,
    /// The wait is over.
    Woke,
}

/// What the task that subscribes to the engine does next.
#[derive(Debug)]
pub enum LinkAction {
    /// Connect to the engine.
    Connect,
    /// Wait for the next frame.
    Read,
    /// Hand the fill to the local subscribers.
    Publish(Fill),
    /// Wait.
    Sleep { secs: u64 },
}

/// The connection to the engine is not there, or no longer.
pub open spec fn is_down(event: LinkEvent) -> bool {
    event is ConnectFailed || event is Closed || event is Errored || event is Ended
}

/// Fills are published, other frames are passed over, and a lost connection is made again
/// after a wait.
pub open spec fn link_action(event: LinkEvent) -> LinkAction {
    match event {
        LinkEvent::Started | LinkEvent::Woke => LinkAction::Connect,
        LinkEvent::Text(Some(fill)) => LinkAction::Publish(fill),
        _ => if is_down(event) {
            LinkAction::Sleep { secs: RETRY_SECS }
        } else {
            LinkAction::Read
        },
    }
}

/// The next step of the task that subscribes to the engine.
pub fn link_step(event: LinkEvent) -> (action: LinkAction)
    ensures
        action == link_action(event),
{
    match event {
        LinkEvent::Started => LinkAction::Connect,
        LinkEvent::Connected => LinkAction::Read,
        LinkEvent::Text(Some(fill)) => LinkAction::Publish(fill),
        LinkEvent::Text(None) => LinkAction::Read,
        LinkEvent::OtherFrame => LinkAction::Read,
        LinkEvent::Published => LinkAction::Read,
        LinkEvent::ConnectFailed => LinkAction::Sleep { secs: RETRY_SECS },
        LinkEvent::Closed => LinkAction::Sleep { secs: RETRY_SECS },
        LinkEvent::Errored => LinkAction::Sleep { secs: RETRY_SECS },
        LinkEvent::Ended => LinkAction::Sleep { secs: RETRY_SECS },
        LinkEvent::Woke => LinkAction::Connect,
    }
}

/// The subscriber reconnects: however the connection goes down, it waits and, once the wait
/// is over, connects. It waits for no other reason.
pub proof fn link_reconnects(event: LinkEvent)
    ensures
        link_action(event) is Sleep <==> is_down(event),
        is_down(event) ==> link_action(event) == (LinkAction::Sleep { secs: RETRY_SECS }),
        link_action(LinkEvent::Woke) is Connect,
{
}

/// The fills among the frames of one connection, up to where it goes down.
pub open spec fn delivered(frames: Seq<LinkEvent>) -> Seq<Fill>
    decreases frames.len(),
{
    if frames.len() == 0 || is_down(frames[0]) {
        Seq::empty()
    } else {
        (match frames[0] {
            LinkEvent::Text(Some(fill)) => seq![fill],
            _ => Seq::empty(),
        }) + delivered(frames.drop_first())
    }
}

/// The fills that the steps of the task publish while they read the frames of one connection.
pub open spec fn published(frames: Seq<LinkEvent>) -> Seq<Fill>
    decreases frames.len(),
{
    if frames.len() == 0 {
        Seq::empty()
    } else {
        match link_action(frames[0]) {
            LinkAction::Publish(fill) => seq![fill] + published(frames.drop_first()),
            LinkAction::Read => published(frames.drop_first()),
            _ => Seq::empty(),
        }
    }
}

/// Something that can come in on a connection: a frame, or the end of it.
pub open spec fn is_incoming(event: LinkEvent) -> bool {
    event is Text || event is OtherFrame || event is Closed || event is Errored || event is Ended
}

/// Every fill that comes in on a connection is published, once and in order, and nothing else.
pub proof fn link_publishes_what_comes_in(frames: Seq<LinkEvent>)
    requires
        forall|i: int| 0 <= i < frames.len() ==> is_incoming(#[trigger] frames[i]),
    ensures
        published(frames) == delivered(frames),
    decreases frames.len(),
{
    if frames.len() > 0 {
        assert(is_incoming(frames[0]));
        assert forall|i: int| 0 <= i < frames.drop_first().len() implies is_incoming(
            #[trigger] frames.drop_first()[i],
        ) by {
            assert(is_incoming(frames[i + 1]));
        }
        link_publishes_what_comes_in(frames.drop_first());
        let rest = delivered(frames.drop_first());
        assert(Seq::<Fill>::empty() + rest =~= rest);
    }
}

/// What happens to a client that watches the fills.
#[derive(Debug)]
pub enum WatchEvent {
    Connected,
    ConnectFailed,
    /// A text frame came in.
    Text(String),
    /// A frame came in that is neither text nor a close.
    OtherFrame,
    /// The text has been shown.
    Shown,
    Closed,
    Errored,
    Ended,
}

/// What a client that watches the fills does next.
#[derive(Debug)]
pub enum WatchAction {
    /// Wait for the next frame.
    Read,
    /// Show this text.
    Show(String),
    /// Stop watching.
    Stop,
}

/// The next step of a client that watches the fills: text is shown with its JSON laid out,
/// other frames are passed over, and the end of the connection is the end.
pub fn watch_step(event: WatchEvent) -> (action: WatchAction)
    ensures
        match event {
            WatchEvent::Text(text) => action matches WatchAction::Show(out) && out@ == shown(text@),
            WatchEvent::Connected | WatchEvent::OtherFrame | WatchEvent::Shown => action is Read,
            WatchEvent::ConnectFailed | WatchEvent::Closed | WatchEvent::Errored
            | WatchEvent::Ended => action is Stop,
        },
        event matches WatchEvent::Text(text) ==> (action matches WatchAction::Show(out) && out@ == (
        match laid_out(text@) {
            Some(laid) => laid,
            None => text@,
        })),
{
    match event {
        WatchEvent::Connected => WatchAction::Read,
        WatchEvent::Text(text) => WatchAction::Show(shown_text(text.as_str())),
        WatchEvent::OtherFrame => WatchAction::Read,
        WatchEvent::Shown => WatchAction::Read,
        WatchEvent::ConnectFailed => WatchAction::Stop,
        WatchEvent::Closed => WatchAction::Stop,
        WatchEvent::Errored => WatchAction::Stop,
        WatchEvent::Ended => WatchAction::Stop,
    }
}

/// The forwarding task sends exactly the fills that it receives, ends exactly when the feed is
/// closed or the client is gone, and otherwise waits for more.
pub proof fn feed_acts_on_events(event: FeedEvent, fill: Fill)
    ensures
        feed_action(event) == FeedAction::Send(fill) <==> event == FeedEvent::Received(fill),
        feed_action(event) is Send <==> event is Received,
        feed_action(event) is Stop <==> event is Closed || event is SendFailed,
{
}

/// The subscriber connects exactly when it starts or its wait is over, publishes exactly the
/// fills that come in as text, and waits one second exactly when the connection could not be
/// made, was closed, failed or ended; otherwise it reads on.
pub proof fn link_acts_on_events(event: LinkEvent, fill: Fill)
    ensures
        link_action(event) is Connect <==> event is Started || event is Woke,
        link_action(event) == LinkAction::Publish(fill) <==> event == LinkEvent::Text(Some(fill)),
        link_action(event) is Publish <==> event matches LinkEvent::Text(Some(_)),
        link_action(event) is Sleep <==> event is ConnectFailed || event is Closed
            || event is Errored || event is Ended,
        link_action(event) matches LinkAction::Sleep { secs } ==> secs == 1,
{
}

/// The fills of a list are those of its items, in order, one for each that received one; those
/// that were sent are the ones among them whose sending worked.
pub proof fn feed_counts_each_item(items: Seq<FeedItem>, item: FeedItem)
    ensures
        received_fills(Seq::empty()) == Seq::<Fill>::empty(),
        sent_fills(Seq::empty()) == Seq::<Fill>::empty(),
        received_fills(items.push(item)) == (match item {
            FeedItem::Received(fill, _) => received_fills(items).push(fill),
            _ => received_fills(items),
        }),
        sent_fills(items.push(item)) == (match item {
            FeedItem::Received(fill, Delivery::Sent) => sent_fills(items).push(fill),
            _ => sent_fills(items),
        }),
    decreases items.len(),
{
    let all = items.push(item);
    if items.len() == 0 {
        assert(all.drop_first() =~= Seq::empty());
        assert(received_fills(all.drop_first()) =~= Seq::empty());
        assert(sent_fills(all.drop_first()) =~= Seq::empty());
    } else {
        assert(all.drop_first() =~= items.drop_first().push(item));
        feed_counts_each_item(items.drop_first(), item);
    }
    assert(received_fills(all) =~= (match item {
        FeedItem::Received(fill, _) => received_fills(items).push(fill),
        _ => received_fills(items),
    }));
    assert(sent_fills(all) =~= (match item {
        FeedItem::Received(fill, Delivery::Sent) => sent_fills(items).push(fill),
        _ => sent_fills(items),
    }));
}

} // verus!
