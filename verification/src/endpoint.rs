//! An endpoint at run time: whether its command runs, and how far it has got.
//!
//! The command of an endpoint is started when a client connects. The child then
//! hands over the descriptor on which its `bind` call will be reported, the report is
//! answered, and the endpoint is started. It is stopped again when the child exits,
//! or when the child takes too long to get that far.
//!
//! Descriptors are of any type `F`: they are carried along, and nothing is asked of
//! them.
use vstd::prelude::*;

use crate::addr::Addr;
use crate::config;

verus! {

/// How far the child of an endpoint has got. While something is waited for, the
/// flags are those of the last event on its descriptor.
#[derive(Debug)]
pub enum State<F> {
    Stopped,
    NeedSeccompFd { ipc: F, ipc_in: u16 },
    NeedSeccompNotify { seccomp: F, seccomp_in: u16 },
    Started,
}

/// An endpoint: its port, its command, the socket that listens, the descriptor of
/// the child with the flags of its last event, the state, and the time at which the
/// state was entered.
#[derive(Debug)]
pub struct Endpoint<F> {
    pub port: u16,
    pub cmd: Vec<String>,
    pub sock: F,
    pub pidfd: Option<(F, u16)>,
    pub state: State<F>,
    pub since: u64,
}

/// An endpoint that has no command.
#[derive(Debug, Clone, Copy, PartialEq, Eq)]
pub struct EmptyCommand {
    pub addr: Addr,
}

/// Something that has come to pass at an endpoint.
#[derive(Debug)]
pub enum Event<F> {
    /// A client has connected, and a child has been started.
    Spawned { ipc: F, pidfd: F },
    /// The child has handed over the descriptor of its reports.
    SeccompFd { seccomp: F },
    /// The child's `bind` call has been answered.
    Answered,
    /// The child has exited.
    Exited,
    /// The child has taken too long, and is no more.
    TimedOut,
}

/// What is to be done at an endpoint.
#[derive(Debug, Clone, Copy, PartialEq, Eq, Structural)]
pub enum Action {
    /// Collect the child that has exited.
    Reap,
    /// Start a child.
    Spawn,
    /// Receive the descriptor of the child's reports.
    ReceiveFd,
    /// Receive the child's report, and answer it.
    Answer,
    /// Nothing.
    Idle,
}

/// Whether the flags of an event say that there is something to read.
pub open spec fn readable(flags: u16) -> bool {
    flags & 1 == 1
}

/// `PollFlags::contains` of rustix, asked of `PollFlags::IN`, which is the lowest bit.
#[verifier::external_body]
fn contains_in(flags: u16) -> (b: bool)
    ensures
        b == readable(flags),
{
    rustix::event::PollFlags::from_bits_retain(flags).contains(rustix::event::PollFlags::IN)
}

/// What is left of `a` when `b` is taken away, which is nothing if `b` is larger.
pub open spec fn minus(a: u64, b: u64) -> u64 {
    if a >= b {
        (a - b) as u64
    } else {
        0
    }
}

impl<F> Endpoint<F> {
    /// An endpoint has a command, and it has a child unless it is stopped.
    pub open spec fn wf(self) -> bool {
        &&& self.cmd@.len() > 0
        &&& self.state is Stopped <==> self.pidfd is None
    }

    /// Whether the child has exited.
    pub open spec fn exited(self) -> bool {
        self.pidfd matches Some((_, flags)) && readable(flags)
    }

    /// Whether the endpoint waits for its child.
    pub open spec fn waits(self) -> bool {
        self.state is NeedSeccompFd || self.state is NeedSeccompNotify
    }

    /// Whether the endpoint can be acted on: where it waits for a descriptor from a
    /// child that lives, there is one to read.
    pub open spec fn actionable(self) -> bool {
        self.state matches State::NeedSeccompFd { ipc_in, .. } ==> self.exited() || readable(
            ipc_in,
        )
    }

    /// What is to be done after an event.
    pub open spec fn action_of(self) -> Action {
        if self.exited() {
            Action::Reap
        } else {
            match self.state {
                State::Stopped => Action::Spawn,
                State::NeedSeccompFd { .. } => Action::ReceiveFd,
                State::NeedSeccompNotify { .. } => Action::Answer,
                State::Started => Action::Idle,
            }
        }
    }

    /// Whether an event can come to pass in the present state.
    pub open spec fn expects(self, event: Event<F>) -> bool {
        match event {
            Event::Spawned { .. } => self.state is Stopped,
            Event::SeccompFd { .. } => self.state is NeedSeccompFd,
            Event::Answered => self.state is NeedSeccompNotify,
            Event::Exited => !(self.state is Stopped),
            Event::TimedOut => self.waits(),
        }
    }

    /// The endpoint after an event at time `now`.
    pub open spec fn after(self, event: Event<F>, now: u64) -> Endpoint<F> {
        match event {
            Event::Spawned { ipc, pidfd } => Endpoint {
                pidfd: Some((pidfd, 0u16)),
                state: State::NeedSeccompFd { ipc, ipc_in: 0 },
                since: now,
                ..self
            },
            Event::SeccompFd { seccomp } => Endpoint {
                state: State::NeedSeccompNotify { seccomp, seccomp_in: 0 },
                since: now,
                ..self
            },
            Event::Answered => Endpoint { state: State::Started, since: now, ..self },
            Event::Exited => Endpoint { pidfd: None, state: State::Stopped, since: now, ..self },
            Event::TimedOut => Endpoint {
                pidfd: None,
                state: State::Stopped,
                since: now,
                ..self
            },
        }
    }

    /// How long the endpoint may go on waiting for its child, if it does: `limit` from
    /// the time at which it began.
    pub open spec fn patience(self, now: u64, limit: u64) -> Option<u64> {
        if self.waits() {
            Some(minus(limit, minus(now, self.since)))
        } else {
            None
        }
    }

    /// Whether the endpoint has waited for its child for as long as it may.
    pub open spec fn overdue(self, now: u64, limit: u64) -> bool {
        self.waits() && minus(now, self.since) >= limit
    }

    /// An endpoint whose socket listens, and which has no child.
    pub fn new(e: config::Endpoint, sock: F, now: u64) -> (r: Endpoint<F>)
        requires
            e.cmd@.len() > 0,
        ensures
            r == (Endpoint {
                port: e.addr.port,
                cmd: e.cmd,
                sock,
                pidfd: None,
                state: State::Stopped,
                since: now,
            }),
            r.wf(),
    {
        Endpoint {
            port: e.addr.port,
            cmd: e.cmd,
            sock,
            pidfd: None,
            state: State::Stopped,
            since: now,
        }
    }

    /// Whether the endpoint can be acted on.
    pub fn is_actionable(&self) -> (b: bool)
        ensures
            b == self.actionable(),
    {
        match &self.state {
            State::NeedSeccompFd { ipc_in, .. } => self.has_exited() || contains_in(*ipc_in),
            _ => true,
        }
    }

    fn has_exited(&self) -> (b: bool)
        ensures
            b == self.exited(),
    {
        match &self.pidfd {
            Some((_, flags)) => contains_in(*flags),
            None => false,
        }
    }

    /// Decides what is to be done after an event.
    pub fn action(&self) -> (a: Action)
        requires
            self.actionable(),
        ensures
            a == self.action_of(),
    {
        if self.has_exited() {
            return Action::Reap;
        }
        match &self.state {
            State::Stopped => Action::Spawn,
            State::NeedSeccompFd { .. } => Action::ReceiveFd,
            State::NeedSeccompNotify { .. } => Action::Answer,
            State::Started => Action::Idle,
        }
    }

    /// Takes note of an event.
    pub fn step(&mut self, event: Event<F>, now: u64)
        requires
            old(self).wf(),
            old(self).expects(event),
        ensures
            *final(self) == old(self).after(event, now),
            final(self).wf(),
    {
        match event {
            Event::Spawned { ipc, pidfd } => {
                self.state = State::NeedSeccompFd { ipc, ipc_in: 0 };
                self.pidfd = Some((pidfd, 0));
            },
            Event::SeccompFd { seccomp } => {
                self.state = State::NeedSeccompNotify { seccomp, seccomp_in: 0 };
            },
            Event::Answered => {
                self.state = State::Started;
            },
            Event::Exited | Event::TimedOut => {
                self.pidfd = None;
                self.state = State::Stopped;
            },
        }
        self.since = now;
    }

    /// How long the endpoint may go on waiting for its child.
    pub fn time_left(&self, now: u64, limit: u64) -> (left: Option<u64>)
        ensures
            left == self.patience(now, limit),
    {
        match &self.state {
            State::NeedSeccompFd { .. } | State::NeedSeccompNotify { .. } => Some(
                limit.saturating_sub(now.saturating_sub(self.since)),
            ),
            _ => None,
        }
    }

    /// Whether the endpoint has waited for its child for as long as it may.
    pub fn timed_out(&self, now: u64, limit: u64) -> (b: bool)
        ensures
            b == self.overdue(now, limit),
    {
        match self.time_left(now, limit) {
            Some(left) => left == 0,
            None => false,
        }
    }
}

/// Checks that an endpoint has a command.
pub fn check_command(e: &config::Endpoint) -> (r: Result<(), EmptyCommand>)
    ensures
        r == if e.cmd@.len() > 0 {
            Ok::<(), EmptyCommand>(())
        } else {
            Err(EmptyCommand { addr: e.addr })
        },
{
    if e.cmd.is_empty() {
        return Err(EmptyCommand { addr: e.addr });
    }
    Ok(())
}

/// A message that came along with data over a unix socket: descriptors, or something
/// else.
#[derive(Debug)]
pub enum Message<F> {
    Rights(Vec<F>),
    Other,
}

/// Takes the descriptor of the child's reports out of the messages that came from the
/// child: the first descriptor of the one message. There is none where there is no
/// message or more than one, or where the one holds no descriptor.
pub fn seccomp_fd<F>(messages: Vec<Message<F>>) -> (fd: Option<F>)
    ensures
        match fd {
            Some(fd) => {
                &&& messages@.len() == 1
                &&& messages@[0] matches Message::Rights(fds) && fds@.len() > 0 && fds@[0] == fd
            },
            None => {
                ||| messages@.len() != 1
                ||| messages@[0] is Other
                ||| messages@[0]->Rights_0@.len() == 0
            },
        },
{
    let mut messages = messages;
    if messages.len() != 1 {
        return None;
    }
    match messages.pop() {
        Some(Message::Rights(fds)) => {
            let mut fds = fds;
            if fds.len() == 0 {
                None
            } else {
                Some(fds.remove(0))
            }
        },
        _ => None,
    }
}

/// The states of an endpoint, without what they carry.
pub enum Phase {
    Stopped,
    NeedSeccompFd,
    NeedSeccompNotify,
    Started,
}

/// What makes an endpoint pass from one state to another: an event on its listening
/// socket, on the unix socket to its child, on the descriptor of the child's reports
/// or on that of the child itself, or the passing of time.
pub enum Cause {
    Socket,
    UnixSocket,
    Seccomp,
    Pidfd,
    Timeout,
}

/// The state of an endpoint, without what it carries.
pub open spec fn phase_of<F>(e: Endpoint<F>) -> Phase {
    match e.state {
        State::Stopped => Phase::Stopped,
        State::NeedSeccompFd { .. } => Phase::NeedSeccompFd,
        State::NeedSeccompNotify { .. } => Phase::NeedSeccompNotify,
        State::Started => Phase::Started,
    }
}

/// What an event comes from.
pub open spec fn cause_of<F>(event: Event<F>) -> Cause {
    match event {
        Event::Spawned { .. } => Cause::Socket,
        Event::SeccompFd { .. } => Cause::UnixSocket,
        Event::Answered => Cause::Seccomp,
        Event::Exited => Cause::Pidfd,
        Event::TimedOut => Cause::Timeout,
    }
}

/// The state diagram of an endpoint.
pub open spec fn diagram(from: Phase, cause: Cause) -> Option<Phase> {
    match (from, cause) {
        (Phase::Stopped, Cause::Socket) => Some(Phase::NeedSeccompFd),
        (Phase::NeedSeccompFd, Cause::UnixSocket) => Some(Phase::NeedSeccompNotify),
        (Phase::NeedSeccompFd, Cause::Pidfd) => Some(Phase::Stopped),
        (Phase::NeedSeccompFd, Cause::Timeout) => Some(Phase::Stopped),
        (Phase::NeedSeccompNotify, Cause::Seccomp) => Some(Phase::Started),
        (Phase::NeedSeccompNotify, Cause::Pidfd) => Some(Phase::Stopped),
        (Phase::NeedSeccompNotify, Cause::Timeout) => Some(Phase::Stopped),
        (Phase::Started, Cause::Pidfd) => Some(Phase::Stopped),
        _ => None,
    }
}

/// An endpoint passes from state to state as the diagram shows, and in no other way.
pub proof fn law_follows_diagram<F>(e: Endpoint<F>, event: Event<F>, now: u64)
    ensures
        e.expects(event) <==> diagram(phase_of(e), cause_of(event)) is Some,
        e.expects(event) ==> diagram(phase_of(e), cause_of(event)) == Some(
            phase_of(e.after(event, now)),
        ),
{
}

/// Whatever comes to pass, an endpoint keeps its port, its command and its listening
/// socket, and it has a child exactly while it is not stopped.
pub proof fn law_event_keeps<F>(e: Endpoint<F>, event: Event<F>, now: u64)
    requires
        e.wf(),
        e.expects(event),
    ensures
        e.after(event, now).wf(),
        e.after(event, now).port == e.port,
        e.after(event, now).cmd == e.cmd,
        e.after(event, now).sock == e.sock,
{
}

/// What is to be done at an endpoint leads to an event that it expects: there is
/// nothing to collect where there is no child, and no child is started where there is
/// one.
pub proof fn law_action_is_expected<F>(e: Endpoint<F>)
    requires
        e.wf(),
        e.actionable(),
    ensures
        match e.action_of() {
            Action::Reap => e.pidfd is Some && e.expects(Event::Exited),
            Action::Spawn => e.pidfd is None && forall|ipc: F, pidfd: F|
                #[trigger] e.expects(Event::Spawned { ipc, pidfd }),
            Action::ReceiveFd => forall|seccomp: F|
                #[trigger] e.expects(Event::SeccompFd { seccomp }),
            Action::Answer => e.expects(Event::<F>::Answered),
            Action::Idle => e.state is Started,
        },
{
}

/// Time runs out for an endpoint exactly when it waits and has no patience left. It has
/// a child then, and expects to be rid of it.
pub proof fn law_timeout_is_due<F>(e: Endpoint<F>, now: u64, limit: u64)
    requires
        e.wf(),
    ensures
        e.overdue(now, limit) <==> e.patience(now, limit) == Some(0u64),
        e.overdue(now, limit) ==> e.pidfd is Some && e.expects(Event::TimedOut),
{
}

/// An endpoint that a client wakes, and whose child does its part and later exits,
/// is stopped again and as it was, but for the time: at each event it is that of the
/// event.
pub proof fn law_round_trip<F>(
    e: Endpoint<F>,
    ipc: F,
    pidfd: F,
    seccomp: F,
    t1: u64,
    t2: u64,
    t3: u64,
    t4: u64,
)
    requires
        e.wf(),
        e.state is Stopped,
    ensures
        ({
            let waked = e.after(Event::Spawned { ipc, pidfd }, t1);
            let handed = waked.after(Event::SeccompFd { seccomp }, t2);
            let started = handed.after(Event::Answered, t3);
            let stopped = started.after(Event::Exited, t4);
            &&& e.expects(Event::Spawned { ipc, pidfd }) && waked.since == t1
            &&& waked.expects(Event::SeccompFd { seccomp }) && handed.since == t2
            &&& handed.expects(Event::Answered) && started.since == t3
            &&& started.state is Started && started.expects(Event::Exited)
            &&& stopped == Endpoint { since: t4, ..e }
        }),
{
}

/// What is to be done at an endpoint. A child is collected exactly if it has exited, that
/// is, if its own descriptor is readable. While it has not, or there is none, the state
/// alone decides: a child is started, the descriptor of its reports received, its report
/// answered, or nothing done. Flags of other descriptors play no part.
pub proof fn law_action_by_state<F>(e: Endpoint<F>)
    ensures
        ({
            let exited = e.pidfd is Some && (e.pidfd->0).1 & 1 == 1;
            &&& exited <==> e.action_of() == Action::Reap
            &&& !exited && e.state is Stopped ==> e.action_of() == Action::Spawn
            &&& !exited && e.state is NeedSeccompFd ==> e.action_of() == Action::ReceiveFd
            &&& !exited && e.state is NeedSeccompNotify ==> e.action_of() == Action::Answer
            &&& !exited && e.state is Started ==> e.action_of() == Action::Idle
        }),
{
}

/// Whether an endpoint can be acted on, whether it is sound and whether it waits. It can be
/// acted on unless it waits for a descriptor from a child that lives while the unix socket
/// to the child is not readable. It is sound if it has a command, and a child exactly while
/// it is not stopped. It waits for its child in the two states before it is started.
pub proof fn law_conditions<F>(e: Endpoint<F>)
    ensures
        e.actionable() <==> !(e.state matches State::NeedSeccompFd { ipc_in, .. } && ipc_in & 1
            != 1 && (e.pidfd matches Some((_, flags)) ==> flags & 1 != 1)),
        e.exited() <==> e.pidfd is Some && (e.pidfd->0).1 & 1 == 1,
        e.wf() <==> e.cmd@.len() > 0 && (e.state is Stopped <==> e.pidfd is None),
        e.waits() <==> e.state !is Stopped && e.state !is Started,
{
    if let Some((_, flags)) = e.pidfd {
        assert(flags & 1 == 0 || flags & 1 == 1) by (bit_vector);
    }
}

/// Which events an endpoint expects: a new child while it is stopped, the descriptor of
/// reports and the answer each in the state that waits for it, the exit of the child
/// whenever it is not stopped, and the end of patience while it waits.
pub proof fn law_expected_events<F>(e: Endpoint<F>, event: Event<F>)
    ensures
        event is Spawned ==> (e.expects(event) <==> e.state is Stopped),
        event is SeccompFd ==> (e.expects(event) <==> e.state is NeedSeccompFd),
        event is Answered ==> (e.expects(event) <==> e.state is NeedSeccompNotify),
        event is Exited ==> (e.expects(event) <==> e.state !is Stopped),
        event is TimedOut ==> (e.expects(event) <==> e.state is NeedSeccompFd || e.state
            is NeedSeccompNotify),
{
}

/// What an event changes at an endpoint, and what it leaves. A new child: its descriptors
/// are kept, with no flags yet. A descriptor of reports: it is kept in place of the unix
/// socket. An answer: nothing is waited for. The end of a child: there is none. Port,
/// command and listening socket stay, and the time is that of the event.
pub proof fn law_effect_of_event<F>(e: Endpoint<F>, event: Event<F>, now: u64)
    ensures
        ({
            let next = e.after(event, now);
            &&& next.port == e.port && next.cmd == e.cmd && next.sock == e.sock
            &&& next.since == now
            &&& event matches Event::Spawned { ipc, pidfd } ==> {
                &&& next.pidfd == Some((pidfd, 0u16))
                &&& next.state == State::NeedSeccompFd { ipc, ipc_in: 0 }
            }
            &&& event matches Event::SeccompFd { seccomp } ==> {
                &&& next.pidfd == e.pidfd
                &&& next.state == State::NeedSeccompNotify { seccomp, seccomp_in: 0 }
            }
            &&& event is Answered ==> next.pidfd == e.pidfd && next.state == State::<F>::Started
            &&& event is Exited || event is TimedOut ==> next.pidfd is None && next.state
                == State::<F>::Stopped
        }),
{
}

/// How long an endpoint may go on waiting, if it waits: `limit` less the time that has
/// passed since it began, or nothing once that is used up. A clock that lags behind has
/// seen no time pass. Time has run out exactly when nothing is left.
pub proof fn law_time_left<F>(e: Endpoint<F>, now: u64, limit: u64)
    ensures
        ({
            let waits = e.state is NeedSeccompFd || e.state is NeedSeccompNotify;
            let passed = if now > e.since {
                now - e.since
            } else {
                0
            };
            &&& !waits ==> e.patience(now, limit) is None && !e.overdue(now, limit)
            &&& waits ==> e.patience(now, limit) is Some
            &&& waits && passed < limit ==> e.patience(now, limit)->0 == limit - passed
                && !e.overdue(now, limit)
            &&& waits && passed >= limit ==> e.patience(now, limit)->0 == 0 && e.overdue(now, limit)
        }),
{
}

/// An endpoint passes the check exactly if its command has a word; otherwise its address
/// is reported.
pub proof fn law_checked_command(e: &config::Endpoint, r: Result<(), EmptyCommand>)
    requires
        call_ensures(check_command, (e,), r),
    ensures
        r is Ok <==> e.cmd@.len() > 0,
        r matches Err(error) ==> error.addr == e.addr,
{
}

/// A new endpoint has the port and the command that were declared and the socket that was
/// made for it; it is stopped, has no child, and may be acted on by starting one.
pub proof fn law_new_endpoint<F>(e: config::Endpoint, sock: F, now: u64, r: Endpoint<F>)
    requires
        e.cmd@.len() > 0,
        call_ensures(Endpoint::<F>::new, (e, sock, now), r),
    ensures
        r.port == e.addr.port && r.cmd == e.cmd && r.sock == sock && r.since == now,
        r.pidfd is None && r.state is Stopped,
        r.actionable() && r.action_of() == Action::Spawn,
{
}

/// A descriptor is taken out of messages exactly if there is one message, it carries
/// descriptors and there is at least one of them. It is the first.
pub proof fn law_taken_descriptor<F>(messages: Vec<Message<F>>, fd: Option<F>)
    requires
        call_ensures(seccomp_fd::<F>, (messages,), fd),
    ensures
        fd is Some <==> messages@.len() == 1 && messages@[0] is Rights
            && messages@[0]->Rights_0@.len() > 0,
        fd is Some ==> fd->0 == messages@[0]->Rights_0@[0],
{
}

/// The decisions at an endpoint are what they are said to be: the action, whether there is
/// one, the time that is left and whether it has run out.
pub proof fn law_decisions<F>(
    e: &Endpoint<F>,
    now: u64,
    limit: u64,
    can: bool,
    action: Action,
    left: Option<u64>,
    out: bool,
)
    requires
        call_ensures(Endpoint::<F>::is_actionable, (e,), can),
        call_ensures(Endpoint::<F>::action, (e,), action),
        call_ensures(Endpoint::<F>::time_left, (e, now, limit), left),
        call_ensures(Endpoint::<F>::timed_out, (e, now, limit), out),
    ensures
        can <==> (e.state matches State::NeedSeccompFd { ipc_in, .. } ==> ipc_in & 1 == 1
            || action is Reap),
        action is Reap <==> e.pidfd is Some && (e.pidfd->0).1 & 1 == 1,
        action is Spawn ==> e.state is Stopped,
        action is ReceiveFd ==> e.state is NeedSeccompFd,
        action is Answer ==> e.state is NeedSeccompNotify,
        action is Idle ==> e.state is Started,
        left is Some <==> e.state is NeedSeccompFd || e.state is NeedSeccompNotify,
        left is Some && now >= e.since && now - e.since < limit ==> left->0 == limit - (now
            - e.since),
        left is Some && now < e.since ==> left->0 == limit,
        out <==> left == Some(0u64),
        out <==> left is Some && (limit == 0 || now >= e.since && now - e.since >= limit),
{
    law_action_by_state(*e);
    law_conditions(*e);
    law_time_left(*e, now, limit);
}

/// An event that is noted changes the endpoint itself in the way that it calls for, and
/// leaves its port, command and listening socket.
pub proof fn law_noted_event<F>(event: Event<F>, now: u64)
    ensures
        forall|e: &mut Endpoint<F>| #[trigger]
            call_ensures(Endpoint::<F>::step, (e, event, now), ()) ==> {
                &&& final(e).port == e.port && final(e).cmd == e.cmd && final(e).sock == e.sock
                &&& final(e).since == now
                &&& event matches Event::Spawned { ipc, pidfd } ==> {
                    &&& final(e).pidfd == Some((pidfd, 0u16))
                    &&& final(e).state == State::NeedSeccompFd { ipc, ipc_in: 0 }
                }
                &&& event matches Event::SeccompFd { seccomp } ==> {
                    &&& final(e).pidfd == e.pidfd
                    &&& final(e).state == State::NeedSeccompNotify { seccomp, seccomp_in: 0 }
                }
                &&& event is Answered ==> final(e).pidfd == e.pidfd && final(e).state
                    == State::<F>::Started
                &&& event is Exited || event is TimedOut ==> final(e).pidfd is None && final(e).state
                    == State::<F>::Stopped
            },
{
}

} // verus!
