use lazybind::answer::{next_step, Outcome, Step};
use lazybind::bpf::{SeccompData, SockFilter};
use lazybind::seccomp::{
    bind_addr, bind_filter, check_struct_sizes, is_sockaddr_in, register_filter, reply, Notif,
    NotifAddfd, NotifResp, RecvError, RemoteRead, Reply, SizeMismatch, SockAddrIn,
};

fn data(nr: i32, args: [u64; 6]) -> SeccompData {
    SeccompData { nr, arch: 7, instruction_pointer: 0x1234, args }
}

fn notif(args: [u64; 6]) -> Notif {
    Notif { id: 42, pid: 17, flags: 0, data: data(49, args) }
}

fn inet(port: u16) -> SockAddrIn {
    SockAddrIn { family: libc::AF_INET as u16, port: port.to_be_bytes() }
}

fn word(d: &SeccompData, offset: u32) -> u32 {
    let mut words = vec![d.nr as u32, d.arch];
    for x in [d.instruction_pointer].iter().chain(d.args.iter()) {
        words.push(*x as u32);
        words.push((*x >> 32) as u32);
    }
    assert_eq!(offset % 4, 0);
    words[offset as usize / 4]
}

fn run(filter: &[SockFilter], d: &SeccompData) -> u32 {
    let mut acc = 0u32;
    let mut pc = 0usize;
    loop {
        let f = filter[pc];
        let code = f.code as u32;
        if code == libc::BPF_LD | libc::BPF_ABS | libc::BPF_W {
            acc = word(d, f.k);
            pc += 1;
        } else if code == libc::BPF_JMP | libc::BPF_JEQ | libc::BPF_K {
            pc += 1 + if acc == f.k { f.jt } else { f.jf } as usize;
        } else {
            assert_eq!(code, libc::BPF_RET | libc::BPF_K);
            return f.k;
        }
    }
}

#[test]
fn sizes_are_compared() {
    assert_eq!(check_struct_sizes(80), Ok(()));
    assert_eq!(check_struct_sizes(72), Err(SizeMismatch { size: 72, expected: 80 }));
    assert_eq!(std::mem::size_of::<libc::seccomp_notif>(), 80);
    assert_eq!(std::mem::size_of::<libc::sockaddr_in>(), 16);
}

#[test]
fn filter_in_numbers() {
    let f = bind_filter(49);
    let parts: Vec<(u16, u8, u8, u32)> = f.iter().map(|f| (f.code, f.jt, f.jf, f.k)).collect();
    assert_eq!(
        parts,
        [
            (0x20, 0, 0, 0),
            (0x15, 0, 5, 49),
            (0x20, 0, 0, 32),
            (0x15, 0, 3, 16),
            (0x20, 0, 0, 36),
            (0x15, 0, 1, 0),
            (0x06, 0, 0, libc::SECCOMP_RET_USER_NOTIF),
            (0x06, 0, 0, libc::SECCOMP_RET_ALLOW),
        ]
    );
}

#[test]
fn filter_of_this_machine() {
    assert_eq!(register_filter(), bind_filter(libc::SYS_bind as u32));
}

#[test]
fn filter_reports_bind() {
    let f = bind_filter(49);
    let report = libc::SECCOMP_RET_USER_NOTIF;
    let allow = libc::SECCOMP_RET_ALLOW;
    assert_eq!(run(&f, &data(49, [3, 4, 16, 0, 0, 0])), report);
    assert_eq!(run(&f, &data(49, [0, 0, 16, 9, 9, 9])), report);
    assert_eq!(run(&f, &data(50, [3, 4, 16, 0, 0, 0])), allow);
    assert_eq!(run(&f, &data(49, [3, 4, 28, 0, 0, 0])), allow);
    assert_eq!(run(&f, &data(49, [3, 4, (1 << 32) + 16, 0, 0, 0])), allow);
    assert_eq!(run(&f, &data(-1, [3, 4, 16, 0, 0, 0])), allow);
}

#[test]
fn reported_address_can_be_read() {
    let n = notif([3, 0xdead_beef, 16, 0, 0, 0]);
    assert_eq!(run(&bind_filter(49), &n.data), libc::SECCOMP_RET_USER_NOTIF);
    assert!(is_sockaddr_in(&n));
    assert_eq!(bind_addr(&n), Ok(RemoteRead { pid: 17, addr: 0xdead_beef, len: 16 }));
    assert!(!is_sockaddr_in(&notif([3, 4, 28, 0, 0, 0])));
}

#[test]
fn process_number_must_fit() {
    let mut n = notif([3, 4, 16, 0, 0, 0]);
    n.pid = i32::MAX as u32;
    assert_eq!(bind_addr(&n), Ok(RemoteRead { pid: i32::MAX, addr: 4, len: 16 }));
    n.pid += 1;
    assert_eq!(bind_addr(&n), Err(RecvError::Pid));
}

#[test]
fn endpoint_port_gets_the_socket() {
    let n = notif([3, 4, 16, 0, 0, 0]);
    assert_eq!(
        reply(&n, &inet(8000), 5, 8000),
        Ok(Reply {
            addfd: Some(NotifAddfd { id: 42, flags: 1, srcfd: 5, newfd: 3, newfd_flags: 0 }),
            resp: NotifResp { id: 42, val: 0, error: 0, flags: 0 },
        })
    );
    assert_eq!(libc::SECCOMP_ADDFD_FLAG_SETFD, 1);
    // the bytes are in network order
    assert_eq!(inet(8000).port, [0x1f, 0x40]);
}

#[test]
fn other_calls_go_on() {
    let n = notif([3, 4, 16, 0, 0, 0]);
    let go_on = Ok(Reply {
        addfd: None,
        resp: NotifResp { id: 42, val: 0, error: 0, flags: 1 },
    });
    assert_eq!(libc::SECCOMP_USER_NOTIF_FLAG_CONTINUE, 1);
    assert_eq!(reply(&n, &inet(8001), 5, 8000), go_on);
    assert_eq!(reply(&n, &SockAddrIn { family: libc::AF_INET as u16, port: [0x40, 0x1f] }, 5, 8000), go_on);
    assert_eq!(reply(&n, &SockAddrIn { family: libc::AF_UNIX as u16, port: [0x1f, 0x40] }, 5, 8000), go_on);
    // descriptors do not matter then
    assert_eq!(reply(&notif([u64::MAX, 4, 16, 0, 0, 0]), &inet(1), -1, 8000), go_on);
}

#[test]
fn descriptors_must_fit() {
    let big = notif([1 << 32, 4, 16, 0, 0, 0]);
    assert_eq!(reply(&big, &inet(8000), 5, 8000), Err(RecvError::TargetFd));
    assert_eq!(reply(&big, &inet(8000), -1, 8000), Err(RecvError::SourceFd));
    let fits = notif([u32::MAX as u64, 4, 16, 0, 0, 0]);
    assert_eq!(reply(&fits, &inet(8000), 0, 8000).unwrap().addfd.unwrap().newfd, u32::MAX);
}

fn steps(n: Notif, addr: SockAddrIn, outcomes: &[Outcome]) -> Vec<Step> {
    let mut step = Step::Receive;
    let mut steps = Vec::new();
    for outcome in [Outcome::Received { notif: n }, Outcome::Address { addr }].iter().chain(outcomes) {
        step = next_step(step, *outcome, 5, 8000).unwrap();
        steps.push(step);
    }
    steps
}

#[test]
fn socket_is_placed_before_the_answer() {
    let notif = notif([3, 4, 16, 0, 0, 0]);
    let from = RemoteRead { pid: 17, addr: 4, len: 16 };
    let Reply { addfd, resp } = reply(&notif, &inet(8000), 5, 8000).unwrap();
    assert_eq!(
        steps(notif, inet(8000), &[Outcome::Placed, Outcome::Sent]),
        [
            Step::Read { notif, from },
            Step::Place { addfd: addfd.unwrap(), resp },
            Step::Send { resp },
            Step::Answered,
        ]
    );
}

#[test]
fn other_calls_are_answered_at_once() {
    let notif = notif([3, 4, 16, 0, 0, 0]);
    let from = RemoteRead { pid: 17, addr: 4, len: 16 };
    let resp = NotifResp { id: 42, val: 0, error: 0, flags: 1 };
    assert_eq!(
        steps(notif, inet(8001), &[Outcome::Sent]),
        [Step::Read { notif, from }, Step::Send { resp }, Step::Answered]
    );
}

#[test]
fn failure_withholds_the_answer() {
    let notif = notif([3, 4, 16, 0, 0, 0]);
    let placing = steps(notif, inet(8000), &[])[1];
    let reading = steps(notif, inet(8000), &[])[0];
    let sending = steps(notif, inet(8001), &[])[1];
    for step in [Step::Receive, reading, placing, sending] {
        assert_eq!(next_step(step, Outcome::Failed, 5, 8000), Ok(Step::Abandoned));
    }
}

#[test]
fn numbers_that_do_not_fit_end_the_steps() {
    let mut n = notif([1 << 32, 4, 16, 0, 0, 0]);
    let read = next_step(Step::Receive, Outcome::Received { notif: n }, 5, 8000).unwrap();
    let address = Outcome::Address { addr: inet(8000) };
    assert_eq!(next_step(read, address, 5, 8000), Err(RecvError::TargetFd));
    assert_eq!(next_step(read, address, -1, 8000), Err(RecvError::SourceFd));
    n.pid = u32::MAX;
    assert_eq!(next_step(Step::Receive, Outcome::Received { notif: n }, 5, 8000), Err(RecvError::Pid));
}

#[test]
fn call_number_is_one_of_bind() {
    let nr = register_filter()[1].k;
    let known = [49, 0x4000_0000 + 49, 200, 282, 327, 353, 358, 361, 4169, 5048];
    assert!(known.contains(&nr));
}
