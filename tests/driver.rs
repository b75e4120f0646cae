use ort::http::{parse_query, query_for};
use ort::latency::Latency;
use ort::limits::{ConcurrencyRamp, InvalidRamp, RampAction, Ramp, RateBudget, Refill, rate_step};
use ort::message::Spec;
use ort::middleware::{Backoff, Limit, MakeRecycle};
use ort::muxer::{MuxClient, MuxError, MuxServer, ServerDrain};
use ort::runner::{countdown_step, effective_clients, Countdown, Replier, Runner};
use ort::distribution::Distribution;
use ort::transport::{scheme_flavor, Flavor, MakeTcp, DEFAULT_BUFFER_CAPACITY};

fn secs(s: u64) -> Latency {
    Latency::from_millis(s * 1000)
}

#[test]
fn mux_out_of_order_reply() {
    let mut client = MuxClient::new();
    let a = client.dispatch("A").unwrap();
    let b = client.dispatch("B").unwrap();
    assert_eq!((a, b), (1, 2));
    assert_eq!(client.in_flight_len(), 2);
    assert_eq!(client.complete(b), Some("B"));
    assert_eq!(client.complete(a), Some("A"));
    assert_eq!(client.complete(a), None);
    assert_eq!(client.on_closed(), Ok(()));
}

#[test]
fn mux_ids_increase() {
    let mut client = MuxClient::new();
    let mut last = 0;
    for _ in 0..100 {
        let id = client.dispatch(()).unwrap();
        assert!(id > last);
        last = id;
        if id % 3 == 0 {
            client.complete(id).unwrap();
        }
    }
    assert!(!client.is_exhausted());
    assert_eq!(client.on_closed(), Err(MuxError::ConnectionReset));
}

#[test]
fn mux_server_rejects_low_ids() {
    let mut server = MuxServer::new();
    assert_eq!(server.accept(1), Ok(()));
    assert_eq!(server.accept(5), Ok(()));
    assert_eq!(server.accept(5), Err(MuxError::RequestIdTooLow));
    assert_eq!(server.accept(3), Err(MuxError::RequestIdTooLow));
    assert_eq!(server.accept(6), Ok(()));
}

#[test]
fn total_requests_partitioned() {
    let counter = Countdown::new(Some(100));
    let mut seen = Vec::new();
    while let Some(n) = counter.advance() {
        seen.push(n);
    }
    assert_eq!(seen, (0..100).collect::<Vec<_>>());
    assert_eq!(counter.advance(), None);
}

#[test]
fn countdown_steps() {
    assert_eq!(countdown_step(0, Some(2)), Some(1));
    assert_eq!(countdown_step(1, Some(2)), Some(2));
    assert_eq!(countdown_step(2, Some(2)), None);
    assert_eq!(countdown_step(5, None), Some(6));
    assert_eq!(countdown_step(usize::MAX, None), None);
}

#[test]
fn zero_total_is_unbounded() {
    let counter = Countdown::new(Some(0));
    for i in 0..1000 {
        assert_eq!(counter.advance(), Some(i));
    }
}

#[test]
fn clients_default_to_threads() {
    assert_eq!(effective_clients(Some(8), 4), 8);
    assert_eq!(effective_clients(Some(0), 4), 4);
    assert_eq!(effective_clients(None, 4), 4);
}

#[test]
fn runner_samples_within_distributions() {
    let latencies = Distribution::build(vec![(0, 5), (100, 10)]).unwrap();
    let sizes = Distribution::from_str("0=100,100=200").unwrap();
    let runner = Runner::new(3, Some(2), latencies, sizes);
    assert_eq!(runner.clients(), 3);
    assert_eq!(runner.next_request(), Some(0));
    assert_eq!(runner.next_request(), Some(1));
    assert_eq!(runner.next_request(), None);
    for _ in 0..100 {
        let spec = runner.sample_spec();
        assert!((5..=10).contains(&spec.latency.millis));
        assert!((100..=200).contains(&spec.response_size));
    }
}

#[test]
fn replier_waits_and_fills() {
    let replier = Replier::new(Distribution::build(vec![(0, 50), (100, 50)]).unwrap());
    let spec = Spec { latency: Latency::from_millis(200), response_size: 1234 };
    assert_eq!(replier.reply_latency(&spec).millis, 200);
    let spec = Spec { latency: Latency::from_millis(10), response_size: 0 };
    assert_eq!(replier.reply_latency(&spec).millis, 50);
    let spec = Spec { latency: Latency::from_millis(30), response_size: 0 };
    assert_eq!(Replier::wait_for(&spec, 10).millis, 30);
    assert_eq!(Replier::wait_for(&spec, 45).millis, 45);
    let reply = replier.reply(&Spec { latency: Latency::from_millis(0), response_size: 1234 });
    assert_eq!(reply.data.len(), 1234);
    assert!(reply.data.iter().any(|b| *b != 0));
}

#[test]
fn ramp_settings() {
    assert_eq!(Ramp::try_new(5, 1, 1, secs(1), false), Err(InvalidRamp::MinAboveMax));
    assert_eq!(Ramp::try_new(1, 5, 1, Latency::from_millis(0), false), Err(InvalidRamp::PeriodRequired));
    let r = Ramp::try_new(1, 2, 1, Latency::from_millis(500), false).unwrap();
    assert_eq!(r.init(), 1);
    let r = Ramp::try_new(1, 5, 0, secs(10), true).unwrap();
    assert_eq!(r.min_step, 1);
    assert_eq!(r.init(), 1);
    let r = Ramp::try_new(4, 4, 1, secs(0), false).unwrap();
    assert_eq!(r.init(), 4);
    assert_eq!(Ramp::fixed(7).init(), 7);
}

#[test]
fn rate_steps() {
    let r = Ramp::try_new(10, 100, 1, secs(10), false).unwrap();
    assert_eq!(rate_step(r, secs(1)), 9);
    assert_eq!(rate_step(r, secs(20)), 0);
    assert_eq!(rate_step(r, Latency::from_millis(500)), 4);
    assert_eq!(rate_step(r, Latency::from_millis(0)), 0);
    let short = Ramp::try_new(0, 10, 1, Latency::from_millis(500), false).unwrap();
    assert_eq!(rate_step(short, Latency::from_millis(100)), 2);
}

#[test]
fn rate_refill() {
    let r = Ramp::try_new(10, 30, 1, secs(2), true).unwrap();
    let mut budget = RateBudget::new(r, secs(1));
    assert_eq!(budget.limit, 10);
    assert_eq!(budget.refill(0), Refill::Add(20));
    assert_eq!(budget.limit, 20);
    assert_eq!(budget.refill(5), Refill::Add(25));
    assert_eq!(budget.limit, 30);
    // At the maximum the ramp resets; permits left above the budget go.
    assert_eq!(budget.refill(25), Refill::Forget(15));
    assert_eq!(budget.limit, 10);
    assert_eq!(budget.refill(20), Refill::Keep);
}

#[test]
fn fixed_concurrency_limit() {
    let fixed = Ramp::try_new(4, 4, 1, secs(0), false).unwrap();
    assert!(!ConcurrencyRamp::is_ramping(&fixed));
    let mut c = ConcurrencyRamp::new(fixed);
    assert_eq!(c.concurrency, 4);
    assert_eq!(c.tick(), RampAction::Stop);
    assert_eq!(c.concurrency, 4);
}

#[test]
fn concurrency_ramp_steps() {
    let r = Ramp::try_new(2, 7, 2, secs(10), true).unwrap();
    assert!(ConcurrencyRamp::is_ramping(&r));
    let mut c = ConcurrencyRamp::new(r);
    assert_eq!(c.interval().millis, 5000);
    assert_eq!(c.tick(), RampAction::Add(2));
    assert_eq!(c.tick(), RampAction::Add(2));
    assert_eq!(c.tick(), RampAction::Add(1));
    assert_eq!(c.concurrency, 7);
    assert_eq!(c.tick(), RampAction::Forget(5));
    assert_eq!(c.concurrency, 2);
}

#[test]
fn reconnect_backoff_doubles() {
    let mut b = Backoff::new(secs(1), secs(60));
    let mut expected = 1000;
    for _ in 0..8 {
        let d = b.next_delay().millis;
        assert!(d >= expected && d <= expected + expected / 10);
        expected = (expected * 2).min(60_000);
    }
    assert_eq!(b.current.millis, 60_000);
    b.reset();
    assert_eq!(b.current.millis, 1000);
    assert_eq!(b.delay_with(7).millis, 1007);
}

#[test]
fn recycle_every_n() {
    let m = MakeRecycle::new((), Some(3));
    let rebuilt: Vec<usize> = (0..7).filter(|r| m.should_recycle(*r)).collect();
    assert_eq!(rebuilt, vec![2, 5]);
    assert!(!MakeRecycle::new((), Some(0)).should_recycle(0));
    assert!(!MakeRecycle::new((), None).should_recycle(0));
    let l = Limit::new(1u8, 2u8);
    assert_eq!((l.acquire, l.inner), (1, 2));
}

#[test]
fn target_schemes() {
    assert_eq!(scheme_flavor("http"), Some((Flavor::Http(()), 8080)));
    assert_eq!(scheme_flavor("grpc"), Some((Flavor::Grpc(()), 8070)));
    assert_eq!(scheme_flavor("tcp"), Some((Flavor::Tcp(()), 8090)));
    assert_eq!(scheme_flavor("https"), None);
    assert_eq!(MakeTcp::new(DEFAULT_BUFFER_CAPACITY).buffer_capacity(), 100_000);
}

#[test]
fn http_queries() {
    let s = parse_query("latency_ms=10&size=20");
    assert_eq!(s, Spec { latency: Latency::from_millis(10), response_size: 20 });
    let s = parse_query("size=x&latency_ms=5&latency_ms=7&other=1&size");
    assert_eq!(s, Spec { latency: Latency::from_millis(7), response_size: 0 });
    assert_eq!(parse_query(""), Spec::default());
}

#[test]
fn http_query_round_trip() {
    let spec = Spec { latency: Latency::from_millis(10), response_size: 20 };
    assert_eq!(query_for(&spec), b"latency_ms=10&size=20".to_vec());
    let zero = Spec::default();
    assert_eq!(query_for(&zero), b"latency_ms=0&size=0".to_vec());
    for spec in [
        spec,
        zero,
        Spec { latency: Latency::from_millis(u64::MAX), response_size: 1_000_000_007 },
    ] {
        let q = String::from_utf8(query_for(&spec)).unwrap();
        assert_eq!(parse_query(&q), spec);
    }
}

#[test]
fn server_drains_in_flight() {
    let mut d = ServerDrain::new();
    assert!(d.on_request());
    assert!(d.on_request());
    d.stop_reading();
    assert!(!d.on_request());
    assert!(!d.is_done());
    d.on_reply();
    assert!(!d.is_done());
    d.on_reply();
    assert!(d.is_done());
}
