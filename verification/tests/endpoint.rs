use lazybind::addr::Addr;
use lazybind::config;
use lazybind::endpoint::{check_command, seccomp_fd, Action, EmptyCommand, Endpoint, Event, Message, State};
use lazybind::poll::{poll_timeout, record, watch_list, watched_fd, Source, Watch};

const IN: u16 = libc::POLLIN as u16;
const HUP: u16 = libc::POLLHUP as u16;

fn declared(port: u16, cmd: &[&str]) -> config::Endpoint {
    config::Endpoint {
        addr: Addr { ip: [127, 0, 0, 1], port },
        cmd: cmd.iter().map(|w| w.to_string()).collect(),
    }
}

fn stopped() -> Endpoint<u32> {
    Endpoint::new(declared(8000, &["run", "it"]), 10, 0)
}

fn spawned() -> Endpoint<u32> {
    let mut e = stopped();
    e.step(Event::Spawned { ipc: 11, pidfd: 12 }, 100);
    e
}

fn handed() -> Endpoint<u32> {
    let mut e = spawned();
    e.step(Event::SeccompFd { seccomp: 13 }, 200);
    e
}

fn started() -> Endpoint<u32> {
    let mut e = handed();
    e.step(Event::Answered, 300);
    e
}

fn watch(index: usize, source: Source) -> Watch {
    Watch { index, source }
}

#[test]
fn command_must_not_be_empty() {
    assert_eq!(check_command(&declared(1, &["a"])), Ok(()));
    let addr = Addr { ip: [127, 0, 0, 1], port: 1 };
    assert_eq!(check_command(&declared(1, &[])), Err(EmptyCommand { addr }));
}

#[test]
fn new_endpoint_is_stopped() {
    let e = stopped();
    assert_eq!((e.port, e.sock, e.since), (8000, 10, 0));
    assert_eq!(e.cmd, ["run", "it"]);
    assert!(e.pidfd.is_none());
    assert!(matches!(e.state, State::Stopped));
    assert_eq!(e.action(), Action::Spawn);
}

#[test]
fn states_follow_each_other() {
    let e = spawned();
    assert_eq!(e.pidfd, Some((12, 0)));
    assert!(matches!(e.state, State::NeedSeccompFd { ipc: 11, ipc_in: 0 }));
    let e = handed();
    assert_eq!(e.pidfd, Some((12, 0)));
    assert!(matches!(e.state, State::NeedSeccompNotify { seccomp: 13, seccomp_in: 0 }));
    assert_eq!(e.action(), Action::Answer);
    let e = started();
    assert_eq!(e.pidfd, Some((12, 0)));
    assert!(matches!(e.state, State::Started));
    assert_eq!(e.action(), Action::Idle);
}

#[test]
fn exit_stops_from_every_state() {
    for mut e in [spawned(), handed(), started()] {
        e.step(Event::Exited, 400);
        assert!(e.pidfd.is_none());
        assert!(matches!(e.state, State::Stopped));
        assert_eq!((e.port, e.sock, e.since), (8000, 10, 400));
        assert_eq!(e.cmd, ["run", "it"]);
    }
}

#[test]
fn timeout_stops_while_waiting() {
    for mut e in [spawned(), handed()] {
        e.step(Event::TimedOut, 400);
        assert!(e.pidfd.is_none());
        assert!(matches!(e.state, State::Stopped));
    }
}

#[test]
fn exit_goes_before_everything() {
    let mut v = vec![spawned(), handed(), started()];
    let w = watch_list(&v);
    assert_eq!(
        w,
        [
            watch(0, Source::Pid),
            watch(0, Source::Ipc),
            watch(1, Source::Pid),
            watch(1, Source::Seccomp),
            watch(2, Source::Pid),
        ]
    );
    let indices = record(&mut v, &w, &vec![IN, IN, IN, IN, IN], 5);
    assert_eq!(indices, [0, 1, 2]);
    for e in &v {
        assert!(e.is_actionable());
        assert_eq!(e.action(), Action::Reap);
    }
}

#[test]
fn descriptor_must_be_there_to_read() {
    let mut v = vec![spawned()];
    assert!(!v[0].is_actionable());
    let w = watch_list(&v);
    record(&mut v, &w, &vec![0, HUP], 1);
    assert!(!v[0].is_actionable());
    record(&mut v, &w, &vec![0, HUP | IN], 1);
    assert!(v[0].is_actionable());
    assert_eq!(v[0].action(), Action::ReceiveFd);
}

#[test]
fn every_endpoint_is_watched() {
    let v = vec![stopped(), spawned(), handed(), started()];
    assert_eq!(
        watch_list(&v),
        [
            watch(0, Source::Sock),
            watch(1, Source::Pid),
            watch(1, Source::Ipc),
            watch(2, Source::Pid),
            watch(2, Source::Seccomp),
            watch(3, Source::Pid),
        ]
    );
    assert_eq!(watch_list(&Vec::<Endpoint<u32>>::new()), []);
    let fds: Vec<u32> = watch_list(&v)
        .iter()
        .map(|w| *watched_fd(&v[w.index], w.source).unwrap())
        .collect();
    assert_eq!(fds, [10, 12, 11, 12, 13, 12]);
    assert_eq!(watched_fd(&v[0], Source::Pid), None);
    assert_eq!(watched_fd(&v[0], Source::Ipc), None);
    assert_eq!(watched_fd(&v[1], Source::Seccomp), None);
}

#[test]
fn events_are_noted() {
    let mut v = vec![stopped(), spawned(), handed()];
    let w = watch_list(&v);
    let indices = record(&mut v, &w, &vec![IN, 0, IN, 0, HUP], 3);
    assert_eq!(indices, [0, 1, 2]);
    assert!(v[0].pidfd.is_none());
    assert_eq!(v[1].pidfd, Some((12, 0)));
    assert!(matches!(v[1].state, State::NeedSeccompFd { ipc: 11, ipc_in: IN }));
    assert_eq!(v[2].pidfd, Some((12, 0)));
    assert!(matches!(v[2].state, State::NeedSeccompNotify { seccomp: 13, seccomp_in: HUP }));
    // flags stay where no event comes
    let indices = record(&mut v, &w, &vec![0, HUP, 0, 0, 0], 1);
    assert_eq!(indices, [1]);
    assert_eq!(v[1].pidfd, Some((12, HUP)));
    assert!(matches!(v[1].state, State::NeedSeccompFd { ipc: 11, ipc_in: IN }));
}

#[test]
fn events_beyond_the_count_do_not_count() {
    let mut v = vec![spawned(), stopped(), started()];
    let w = watch_list(&v);
    let indices = record(&mut v, &w, &vec![0, IN, IN, IN], 2);
    assert_eq!(indices, [0, 1]);
    assert_eq!(v[2].pidfd, Some((12, 0)));
    assert_eq!(record(&mut v, &w, &vec![IN, IN, IN, IN], 0), []);
    assert_eq!(v[0].pidfd, Some((12, 0)));
}

#[test]
fn round_trip_ends_where_it_began() {
    let mut e = started();
    assert_eq!((spawned().since, handed().since, e.since), (100, 200, 300));
    e.step(Event::Exited, 400);
    assert_eq!(e.since, 400);
    let mut s = stopped();
    s.since = 400;
    assert_eq!(format!("{:?}", e), format!("{:?}", s));
}

#[test]
fn waiting_has_a_limit() {
    assert_eq!(stopped().time_left(500, 1000), None);
    assert_eq!(started().time_left(500, 1000), None);
    assert_eq!(spawned().time_left(100, 1000), Some(1000));
    assert_eq!(spawned().time_left(500, 1000), Some(600));
    assert_eq!(spawned().time_left(1100, 1000), Some(0));
    assert_eq!(spawned().time_left(u64::MAX, 1000), Some(0));
    assert_eq!(spawned().time_left(0, u64::MAX), Some(u64::MAX));
    assert_eq!(poll_timeout(&vec![stopped(), started()], 500, 1000), None);
    assert_eq!(poll_timeout(&vec![stopped(), handed(), spawned(), started()], 500, 1000), Some(600));
    assert_eq!(poll_timeout(&vec![spawned(), handed()], 500, 1000), Some(600));
}

#[test]
fn one_message_with_a_descriptor() {
    assert_eq!(seccomp_fd(vec![Message::Rights(vec![4u32])]), Some(4));
    assert_eq!(seccomp_fd(vec![Message::Rights(vec![4u32, 5])]), Some(4));
    assert_eq!(seccomp_fd(vec![Message::Rights(Vec::<u32>::new())]), None);
    assert_eq!(seccomp_fd(vec![Message::<u32>::Other]), None);
    assert_eq!(seccomp_fd(Vec::<Message<u32>>::new()), None);
    assert_eq!(seccomp_fd(vec![Message::Rights(vec![4u32]), Message::Other]), None);
}

#[test]
fn time_runs_out_only_while_waiting() {
    assert!(!spawned().timed_out(1099, 1000));
    assert!(spawned().timed_out(1100, 1000));
    assert!(handed().timed_out(u64::MAX, 1000));
    assert!(!handed().timed_out(1199, 1000));
    // a clock that lags behind has seen no time pass
    assert!(!spawned().timed_out(0, 1));
    assert!(spawned().timed_out(0, 0));
    assert!(!stopped().timed_out(u64::MAX, 0));
    assert!(!started().timed_out(u64::MAX, 0));
}
