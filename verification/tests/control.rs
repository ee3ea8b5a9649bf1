use tperf::address::{IpAddr, SocketAddr};
use tperf::client::{on_message, round_time, wait_for_acks, AckWait, PumpAction, Run, RunPhase};
use tperf::config::{Config, Network, TestType};
use tperf::metrics::{Counters, ProcSample};
use tperf::netutil::AddrFamily;
use tperf::proto::{
    read_frame, write_frame, Assignment, FrameError, FrameStep, Msg, Target, MAX_FRAME,
};
use tperf::server::{
    control_bind, prepare, senders, wait_step, window_deadline, Action, ControlBind, Event,
    LoopEvent, LoopPhase, LoopStep, OpenWindow, Phase, Reading, ReportLoop, Session, Wait,
    WINDOW_NS,
};

#[test]
fn frames_are_read_back() {
    for len in [1usize, 2, 300, 70_000] {
        let data: Vec<u8> = (0..len).map(|i| i as u8).collect();
        let mut frame = write_frame(&data).unwrap();
        assert_eq!(frame[..4], (len as u32).to_be_bytes());
        assert_eq!(&frame[4..], &data[..]);
        for cut in [0, 1, 3, 4, 4 + len / 2, 3 + len] {
            match read_frame(&frame[..cut]).unwrap() {
                FrameStep::NeedMore(more) => {
                    let whole = if cut < 4 { 4 } else { 4 + len };
                    assert_eq!(more, whole - cut);
                }
                FrameStep::Ready(_) => panic!("ready after {cut} bytes"),
            }
        }
        frame.extend([1, 2, 3]);
        match read_frame(&frame).unwrap() {
            FrameStep::Ready(got) => assert_eq!(got, data),
            FrameStep::NeedMore(more) => panic!("{more} bytes missing"),
        }
    }
}

#[test]
fn frames_have_limits() {
    assert_eq!(read_frame(&[0, 0, 0, 0, 9]).unwrap_err(), FrameError::Length(0));
    let e = read_frame(&[1, 0, 0, 1]).unwrap_err();
    assert_eq!(e, FrameError::Length(16_777_217));
    assert_eq!(e.message(), "invalid control frame length 16777217");
    assert!(matches!(
        read_frame(&[1, 0, 0, 0]),
        Ok(FrameStep::NeedMore(16_777_216))
    ));
    assert!(write_frame(&vec![7; MAX_FRAME]).is_ok());
    let e = write_frame(&vec![7; MAX_FRAME + 1]).unwrap_err();
    assert_eq!(e, FrameError::TooLarge(16_777_217));
    assert_eq!(e.message(), "control message too large (16777217 bytes)");
    assert_eq!(write_frame(&[]).unwrap(), vec![0, 0, 0, 0]);
}

fn ack(cmd: &str) -> Msg<u8> {
    Msg::Ack {
        cmd: cmd.to_string(),
    }
}

fn error(message: &str) -> Msg<u8> {
    Msg::Error {
        message: message.to_string(),
    }
}

#[test]
fn client_reacts_to_servers() {
    let mut started = false;
    assert!(matches!(on_message(&mut started, error("no")), PumpAction::Fail(m) if m == "no"));
    assert!(!started);
    assert!(matches!(
        on_message(&mut started, ack("START")),
        PumpAction::Unexpected(Msg::Ack { .. })
    ));
    assert!(!started);
    assert!(matches!(
        on_message(&mut started, ack("start")),
        PumpAction::CountStart
    ));
    assert!(started);
    assert!(matches!(on_message(&mut started, error("no")), PumpAction::Report(m) if m == "no"));
    assert!(matches!(
        on_message(&mut started, Msg::Metrics { window: 7u8 }),
        PumpAction::Store(7)
    ));
    assert!(matches!(
        on_message(&mut started, Msg::<u8>::Stop),
        PumpAction::Unexpected(Msg::Stop)
    ));
    assert!(matches!(
        on_message(&mut started, ack("stop")),
        PumpAction::Stopped
    ));
    assert!(started);
}

#[test]
fn client_waits_for_acks() {
    assert_eq!(wait_for_acks(3, 3, true, true), AckWait::Ready);
    assert_eq!(wait_for_acks(2, 3, true, true), AckWait::Cancelled);
    assert_eq!(wait_for_acks(2, 3, false, true), AckWait::Late);
    assert_eq!(wait_for_acks(2, 3, false, false), AckWait::Again);
}

#[test]
fn sessions_run_one_test() {
    let mut s = Session::new();
    assert_eq!(s.on_event(Event::Other), Action::Read);
    assert_eq!(s.on_event(Event::Stop), Action::AckStop { stop_first: false });
    assert_eq!(s.on_event(Event::Sent), Action::Read);
    assert_eq!(s.on_event(Event::Start), Action::Start { stop_first: false });
    assert_eq!(s.on_event(Event::NotStarted), Action::Report);
    assert_eq!(s.on_event(Event::NotSent), Action::Read);
    assert!(!s.running);
    assert_eq!(s.on_event(Event::Start), Action::Start { stop_first: false });
    assert_eq!(s.on_event(Event::Started), Action::AckStart);
    assert_eq!(s.on_event(Event::Sent), Action::Read);
    assert!(s.running);
    assert_eq!(s.on_event(Event::Start), Action::Start { stop_first: true });
    assert!(!s.running);
    assert_eq!(s.on_event(Event::Started), Action::AckStart);
    assert_eq!(
        s.on_event(Event::NotSent),
        Action::End {
            stop_first: true,
            failed: true
        }
    );
    assert_eq!(s.phase, Phase::Over);
    let mut s = Session::new();
    s.on_event(Event::Start);
    s.on_event(Event::Started);
    s.on_event(Event::Sent);
    assert_eq!(
        s.on_event(Event::Closed),
        Action::End {
            stop_first: true,
            failed: false
        }
    );
    let mut s = Session::new();
    s.on_event(Event::Start);
    s.on_event(Event::Started);
    s.on_event(Event::Sent);
    assert_eq!(s.on_event(Event::Stop), Action::AckStop { stop_first: true });
    assert_eq!(
        s.on_event(Event::NotSent),
        Action::End {
            stop_first: false,
            failed: true
        }
    );
}

#[test]
fn control_socket_addresses() {
    assert!(matches!(
        control_bind("0.0.0.0:7777"),
        Ok(ControlBind::Addr(a)) if a == SocketAddr::new(IpAddr::V4(0), 7777)
    ));
    assert!(matches!(
        control_bind("[::]:1"),
        Ok(ControlBind::Addr(a)) if a == SocketAddr::new(IpAddr::V6(0), 1)
    ));
    assert!(matches!(
        control_bind("srv1:5"),
        Ok(ControlBind::Resolve(h, 5)) if h == "srv1"
    ));
    assert_eq!(control_bind("").unwrap_err().message(), "empty address");
}

#[test]
fn windows_end_on_the_grid() {
    assert_eq!(window_deadline(5, 0), 5);
    assert_eq!(window_deadline(5, 3), 5 + 3 * WINDOW_NS);
    assert_eq!(window_deadline(5, u64::MAX), u64::MAX);
    assert_eq!(wait_step(10, 10, true), Wait::Reached);
    assert_eq!(wait_step(9, 10, true), Wait::Cancelled);
    assert_eq!(wait_step(9, 10, false), Wait::Spin);
    assert_eq!(wait_step(0, 200_000, false), Wait::Spin);
    assert_eq!(wait_step(0, 200_001, false), Wait::Sleep(1));
    assert_eq!(wait_step(5, 1_000_005, false), Wait::Sleep(800_000));
}

#[test]
fn windows_touch() {
    let hosts: Vec<String> = ["a", "b"].iter().map(|s| s.to_string()).collect();
    let mut c = Counters::new(&hosts);
    let look = |mono_ns: u64, wall_ns: u64, ticks: u64| Reading {
        mono_ns,
        wall_ns,
        process: Some(ProcSample {
            utime_ticks: ticks,
            stime_ticks: 0,
            rss_bytes: 77,
        }),
    };
    c.record_sent(Some(1), 1000, 1);
    let mut w = OpenWindow::open(&c, look(10, 100, 0));
    c.record_sent(Some(1), 5, 1);
    let first = w.close("me", &c, look(20, 115, 3), 100);
    assert_eq!(first.server, "me");
    assert_eq!((first.wall_start_ns, first.wall_end_ns), (100, 115));
    assert_eq!(first.duration_ns, 10);
    assert_eq!((first.bytes_sent, first.packets_sent), (5, 1));
    assert_eq!(first.cpu_ns, 30_000_000);
    assert_eq!(first.memory_bytes, 77);
    assert_eq!(first.peers.len(), 1);
    assert_eq!((first.peers[0].peer.as_str(), first.peers[0].bytes_sent), ("b", 5));
    let blind = Reading {
        mono_ns: 20,
        wall_ns: 120,
        process: None,
    };
    let second = w.close("me", &c, blind, 100);
    assert_eq!((second.wall_start_ns, second.wall_end_ns), (115, 120));
    assert_eq!(second.duration_ns, 1);
    assert_eq!((second.bytes_sent, second.cpu_ns, second.memory_bytes), (0, 0, 0));
    assert!(second.peers.is_empty());
    let third = w.close("me", &c, look(50, 130, 9), 100);
    assert_eq!(third.cpu_ns, 0);
    assert_eq!(third.memory_bytes, 77);
}

fn config(n: usize, test_type: TestType) -> Config {
    let hosts: Vec<String> = (0..n).map(|i| format!("h{i}")).collect();
    Config {
        client_addr: "0.0.0.0:7777".to_string(),
        test_addr: "10.9.9.9:9100".to_string(),
        network: Network::Tcp,
        payload_size: 1,
        workers: 1,
        test_type,
        hostlist: hosts.clone(),
        hostlist_raw: hosts,
        tag: "t".to_string(),
    }
}

fn connected(n: usize, test_type: TestType, cancelled: bool) -> Run {
    let mut run = Run::new(&config(n, test_type));
    for i in 0..n {
        assert_eq!(run.phase, RunPhase::Resolving(i));
        run.on_resolved(format!("10.0.0.{i}:1"));
    }
    for i in 0..n {
        assert_eq!(run.phase, RunPhase::Connecting(i));
        run.on_connected(cancelled);
    }
    run
}

fn start_all(run: &mut Run, n: usize) {
    for i in 0..n {
        assert_eq!(run.phase, RunPhase::Starting(i));
        assert_eq!(run.plan[i].self_name, format!("h{i}"));
        assert_eq!(run.plan[i].self_id, i as u32);
        assert_eq!(run.plan[i].bind, format!("10.0.0.{i}:1"));
        run.on_started();
    }
    assert_eq!(run.phase, RunPhase::Running);
}

fn stop_all(run: &mut Run, n: usize) {
    for i in 0..n {
        assert_eq!(run.phase, RunPhase::Stopping(i));
        run.on_stopped();
    }
    assert_eq!(run.phase, RunPhase::Draining);
    run.on_drained();
    assert_eq!(run.phase, RunPhase::Over);
}

#[test]
fn mesh_runs_start_once() {
    let mut run = connected(3, TestType::Mesh, true);
    start_all(&mut run, 3);
    assert!(run.plan.iter().all(|a| a.targets.len() == 2));
    assert!(!run.on_played(true));
    stop_all(&mut run, 3);
}

#[test]
fn pair_runs_start_every_round() {
    let mut run = connected(4, TestType::Pairs, false);
    for round in 0..6 {
        assert_eq!(run.tournament.round, round % 3);
        start_all(&mut run, 4);
        assert!(run.plan.iter().all(|a| a.targets.len() == 1));
        assert_eq!(run.on_played(round == 5), round == 2);
    }
    assert_eq!((run.tournament.number, run.tournament.round), (2, 2));
    stop_all(&mut run, 4);
    let mut run = connected(4, TestType::Pairs, true);
    stop_all(&mut run, 4);
}

#[test]
fn servers_prepare_a_test() {
    let cfg = config(3, TestType::Mesh);
    let target = |id: u32, addr: &str| Target {
        name: format!("h{id}"),
        id,
        addr: addr.to_string(),
    };
    let assignment = Assignment {
        self_name: "h0".to_string(),
        self_id: 0,
        bind: "10.0.0.1:9100".to_string(),
        targets: vec![target(1, "10.0.0.2:9100"), target(2, "")],
    };
    let setup = prepare(&cfg, &assignment).unwrap();
    assert_eq!(setup.port, 9100);
    assert_eq!(setup.family, Some(AddrFamily::V4));
    let addr = |last: u32| SocketAddr::new(IpAddr::V4(0x0a00_0000 + last), 9100);
    assert_eq!(setup.bind, Some(addr(1)));
    assert_eq!(setup.destinations.len(), 2);
    assert_eq!((setup.destinations[0].id, setup.destinations[0].addr), (1, Some(addr(2))));
    assert_eq!((setup.destinations[1].id, setup.destinations[1].addr), (2, None));
    let mut bad = cfg.clone();
    bad.workers = 0;
    assert_eq!(
        prepare(&bad, &assignment).unwrap_err().message(),
        "workers must be >= 1"
    );
}

#[test]
fn rounds_last_a_window_and_some_slack() {
    let t = round_time();
    assert_eq!((t.traffic_ms, t.slack_ms), (1000, 100));
    assert_eq!(t.total_ms(), 1100);
}

fn at(now: u64, cancelled: bool) -> LoopEvent {
    LoopEvent::Look { now, cancelled }
}

#[test]
fn reports_keep_to_the_grid() {
    let mut r = ReportLoop::new(5);
    assert_eq!(r.on_event(at(5, false)), LoopStep::Sleep(WINDOW_NS - 200_000));
    assert_eq!(r.on_event(at(5 + WINDOW_NS - 1, false)), LoopStep::Spin);
    assert_eq!(r.on_event(at(5 + WINDOW_NS, false)), LoopStep::Report);
    let now = 6 + WINDOW_NS;
    let reported = LoopEvent::Reported {
        now,
        cancelled: false,
    };
    assert_eq!(r.on_event(reported), LoopStep::Look);
    assert_eq!((r.next, r.phase), (2, LoopPhase::Waiting));
    assert_eq!(r.on_event(at(now, false)), LoopStep::Sleep(WINDOW_NS - 200_001));
    let mut late = r;
    assert_eq!(r.on_event(at(now + 1, true)), LoopStep::End);
    assert_eq!(r.phase, LoopPhase::Over);
    let mut cut = late;
    assert_eq!(cut.on_event(LoopEvent::Interrupted { now }), LoopStep::End);
    assert_eq!(late.on_event(at(5 + 2 * WINDOW_NS, true)), LoopStep::Report);
    let reported = LoopEvent::Reported {
        now: 5 + 2 * WINDOW_NS,
        cancelled: true,
    };
    assert_eq!(late.on_event(reported), LoopStep::End);
    assert_eq!((late.next, late.phase), (3, LoopPhase::Over));
}

#[test]
fn many_windows_tile() {
    let hosts: Vec<String> = ["a", "b"].iter().map(|s| s.to_string()).collect();
    let mut c = Counters::new(&hosts);
    c.record_sent(Some(1), 77, 3);
    let look = |i: u64| Reading {
        mono_ns: 100 + 10 * i,
        wall_ns: 1000 + 11 * i,
        process: None,
    };
    let mut w = OpenWindow::open(&c, look(0));
    let mut sums = [0u64; 5];
    let mut time = 0;
    let mut end = 1000;
    for i in 1..=9u64 {
        c.record_sent(Some(0), i, 1);
        c.record_recv(Some(1), 2 * i, 2);
        c.record_drop(None, i % 3);
        let r = w.close("me", &c, look(i), 100);
        assert_eq!(r.wall_start_ns, end);
        end = r.wall_end_ns;
        time += r.duration_ns;
        sums[0] += r.bytes_sent;
        sums[1] += r.bytes_recv;
        sums[2] += r.packets_sent;
        sums[3] += r.packets_recv;
        sums[4] += r.packets_dropped;
    }
    assert_eq!(sums, [45, 90, 9, 18, 9]);
    assert_eq!(time, 90);
}

#[test]
fn every_target_gets_its_workers() {
    let target = |id: u32| Target {
        name: format!("h{id}"),
        id,
        addr: String::new(),
    };
    let assignment = Assignment {
        self_name: "h0".to_string(),
        self_id: 0,
        bind: String::new(),
        targets: vec![target(2), target(1)],
    };
    let setup = prepare(&config(3, TestType::Mesh), &assignment).unwrap();
    let list: Vec<(usize, u32)> = senders(&setup.destinations, 3)
        .iter()
        .map(|s| (s.target, s.to.id))
        .collect();
    assert_eq!(list, vec![(0, 2), (0, 2), (0, 2), (1, 1), (1, 1), (1, 1)]);
    assert!(senders(&setup.destinations, 0).is_empty());
    assert!(senders(&[], 3).is_empty());
}
