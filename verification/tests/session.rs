//! Connections of lines.

use libro_unificado::binance::BinanceProtocol;
use libro_unificado::chaos::market_seed;
use libro_unificado::coinbase::CoinbaseProtocol;
use libro_unificado::event::{MarketEvent, RxStamp};
use libro_unificado::fixed::Qty;
use libro_unificado::instrument::MarketKind;
use libro_unificado::net::{LineAction, LinePolicy, Protocol};
use libro_unificado::okx::OkxProtocol;
use libro_unificado::session::{on_input, Ending, Input};

const SNAP: &str = r#"{"channel":"l2_data","timestamp":"2026-09-26T04:14:54.777523902Z","sequence_num":0,"events":[{"type":"snapshot","product_id":"SOL-USD","updates":[{"side":"bid","event_time":"2026-09-26T04:14:54.693295Z","price_level":"120.7","new_quantity":"110.06502693"}]}]}"#;
const GAP: &str = r#"{"channel":"l2_data","timestamp":"2026-09-26T04:15:38.40993531Z","sequence_num":5,"events":[{"type":"update","product_id":"SOL-USD","updates":[{"side":"bid","event_time":"2026-09-26T04:15:38.391474Z","price_level":"120.73","new_quantity":"1"}]}]}"#;

fn okx() -> OkxProtocol {
    OkxProtocol::new("SOL-USDT", Qty::from_units(1))
}

#[test]
fn a_frame_delivers_its_events() {
    let mut p = CoinbaseProtocol::new("SOL-USD", true);
    p.on_connect();
    let r = on_input(&mut p, Input::Text(SNAP, RxStamp::default()));
    assert_eq!(r.events.len(), 1);
    assert!(matches!(r.events[0], MarketEvent::Snapshot(_)));
    assert!(r.fault.is_none() && r.send.is_empty() && !r.close && r.end.is_none());
}

#[test]
fn a_frame_that_nobody_consumes_delivers_nothing() {
    let mut p = okx();
    let r = on_input(&mut p, Input::Text("pong", RxStamp::default()));
    assert!(r.events.is_empty() && r.fault.is_none() && r.end.is_none());
    let r = on_input(&mut p, Input::Other);
    assert!(r.events.is_empty() && r.fault.is_none() && r.send.is_empty() && r.end.is_none());
}

#[test]
fn a_frame_that_cannot_be_read_is_a_fault() {
    let mut p = okx();
    let r = on_input(&mut p, Input::Text("{", RxStamp::default()));
    assert!(r.events.is_empty() && r.fault.is_some());
    assert_eq!(r.end, None);
}

#[test]
fn an_invalid_state_subscribes_again() {
    let mut p = CoinbaseProtocol::new("SOL-USD", true);
    p.on_connect();
    on_input(&mut p, Input::Text(SNAP, RxStamp::default()));
    let r = on_input(&mut p, Input::Text(GAP, RxStamp::default()));
    assert!(r.events.is_empty());
    assert_eq!(r.send.len(), 2);
    assert_eq!(r.if_unsent, Some(Ending::Unsubscribed));
    assert_eq!(r.end, None);
}

#[test]
fn a_new_snapshot_subscribes_again_or_reconnects() {
    let r = on_input(&mut okx(), Input::Resnapshot);
    assert_eq!(r.send.len(), 2);
    assert!(r.send[0].contains("unsubscribe"));
    assert_eq!((r.end, r.if_unsent), (None, Some(Ending::Unsubscribed)));
    let r = on_input(&mut BinanceProtocol, Input::Resnapshot);
    assert!(r.close && r.send.is_empty());
    assert_eq!(r.end, Some(Ending::Reconnect));
}

#[test]
fn a_beat_is_sent_where_there_is_one() {
    let r = on_input(&mut okx(), Input::Beat);
    assert_eq!(r.send, vec!["ping".to_string()]);
    assert_eq!(r.if_unsent, Some(Ending::NoBeat));
    let r = on_input(&mut BinanceProtocol, Input::Beat);
    assert!(r.send.is_empty() && r.if_unsent.is_none());
}

#[test]
fn each_ending_leads_its_line_on() {
    let p = &mut BinanceProtocol;
    let ends = [
        (Input::Shutdown, Ending::Shutdown, true),
        (Input::Deadline, Ending::Rotation, true),
        (Input::Silence, Ending::Silent, false),
        (Input::Closed, Ending::Closed, false),
        (Input::Broken, Ending::Broken, false),
        (Input::Goodbye, Ending::Goodbye, false),
    ];
    for (i, e, close) in ends {
        let r = on_input(p, i);
        assert_eq!(r.end, Some(e));
        assert_eq!(r.close, close);
        let mut line = LinePolicy::new(0);
        let next = line.on(e.event());
        match e {
            Ending::Shutdown => assert!(next == LineAction::Stop),
            Ending::Rotation => assert!(next == LineAction::Now),
            _ => assert!(next == LineAction::Wait(250)),
        }
    }
    assert_eq!(Ending::Silent.reason(), "línea muda (watchdog)");
    assert_eq!(Ending::Shutdown.reason(), "apagado");
}

#[test]
fn each_kind_of_market_has_its_seed() {
    assert_eq!(market_seed(0x5eed, MarketKind::Spot), 0x5eed);
    assert_eq!(market_seed(0x5eed, MarketKind::Perp), 0xa000);
}
