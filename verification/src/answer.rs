//! The steps in which a reported `bind` call is answered.
//!
//! The report is received, and the address is read from the memory of the child. Where
//! it is the endpoint's, the listening socket is put into the child, and only when that
//! is done is the answer sent. Whatever fails, nothing further is done, and no answer is
//! sent.
use vstd::prelude::*;

use crate::seccomp::{
    bind_addr, bind_addr_of, has_sockaddr_in, is_endpoint, reply, reply_of, Notif, NotifAddfd,
    NotifResp, RecvError, RemoteRead, Reply, SockAddrIn,
};

verus! {

/// What is to be done next about a report.
#[derive(Debug, Clone, Copy, PartialEq, Eq)]
pub enum Step {
    /// Receive the report.
    Receive,
    /// Read the address that the call wants to bind.
    Read { notif: Notif, from: RemoteRead },
    /// Put a descriptor into the child.
    Place { addfd: NotifAddfd, resp: NotifResp },
    /// Send the answer.
    Send { resp: NotifResp },
    /// Nothing: the call has been answered.
    Answered,
    /// Nothing: something has failed.
    Abandoned,
}

/// What has come of a step.
#[derive(Debug, Clone, Copy, PartialEq, Eq)]
pub enum Outcome {
    /// The report.
    Received { notif: Notif },
    /// The address.
    Address { addr: SockAddrIn },
    /// The descriptor is in the child.
    Placed,
    /// The answer is sent.
    Sent,
    /// The step has failed.
    Failed,
}

/// Whether nothing more is to be done.
pub open spec fn is_over(step: Step) -> bool {
    step is Answered || step is Abandoned
}

/// Whether an outcome can come of a step. A report gives the length of an IPv4 socket
/// address.
pub open spec fn comes_of(step: Step, outcome: Outcome) -> bool {
    match outcome {
        Outcome::Received { notif } => step is Receive && has_sockaddr_in(notif),
        Outcome::Address { .. } => step is Read,
        Outcome::Placed => step is Place,
        Outcome::Sent => step is Send,
        Outcome::Failed => !is_over(step),
    }
}

/// The step that begins to carry out a reply.
pub open spec fn carry_out(reply: Reply) -> Step {
    match reply.addfd {
        Some(addfd) => Step::Place { addfd, resp: reply.resp },
        None => Step::Send { resp: reply.resp },
    }
}

/// The step that follows a step, where the socket `sock` listens on `port`.
pub open spec fn step_after(step: Step, outcome: Outcome, sock: i32, port: u16) -> Result<
    Step,
    RecvError,
> {
    match (step, outcome) {
        (Step::Receive, Outcome::Received { notif }) => match bind_addr_of(notif) {
            Ok(from) => Ok(Step::Read { notif, from }),
            Err(error) => Err(error),
        },
        (Step::Read { notif, .. }, Outcome::Address { addr }) => match reply_of(
            notif,
            addr,
            sock,
            port,
        ) {
            Ok(reply) => Ok(carry_out(reply)),
            Err(error) => Err(error),
        },
        (Step::Place { resp, .. }, Outcome::Placed) => Ok(Step::Send { resp }),
        (Step::Send { .. }, Outcome::Sent) => Ok(Step::Answered),
        _ => Ok(Step::Abandoned),
    }
}

/// Decides what is to be done next about a report.
pub fn next_step(step: Step, outcome: Outcome, sock: i32, port: u16) -> (r: Result<
    Step,
    RecvError,
>)
    requires
        comes_of(step, outcome),
    ensures
        r == step_after(step, outcome, sock, port),
{
    match (step, outcome) {
        (Step::Receive, Outcome::Received { notif }) => match bind_addr(&notif) {
            Ok(from) => Ok(Step::Read { notif, from }),
            Err(error) => Err(error),
        },
        (Step::Read { notif, .. }, Outcome::Address { addr }) => match reply(
            &notif,
            &addr,
            sock,
            port,
        ) {
            Ok(reply) => match reply.addfd {
                Some(addfd) => Ok(Step::Place { addfd, resp: reply.resp }),
                None => Ok(Step::Send { resp: reply.resp }),
            },
            Err(error) => Err(error),
        },
        (Step::Place { resp, .. }, Outcome::Placed) => Ok(Step::Send { resp }),
        (Step::Send { .. }, Outcome::Sent) => Ok(Step::Answered),
        _ => Ok(Step::Abandoned),
    }
}

/// An answer is sent only in one of two cases: the descriptor that goes with it has been
/// put into the child, or the address that was read is not the endpoint's, and the call
/// goes on.
pub proof fn law_placed_before_answer(step: Step, outcome: Outcome, sock: i32, port: u16)
    requires
        comes_of(step, outcome),
    ensures
        step_after(step, outcome, sock, port) matches Ok(Step::Send { resp }) ==> {
            ||| outcome is Placed && step is Place && step->Place_resp == resp
            ||| outcome matches Outcome::Address { addr } && !is_endpoint(addr, port)
        },
{
}

/// Where a step fails, nothing further is done: no answer is sent, and no outcome is
/// waited for.
pub proof fn law_failure_withholds_answer(step: Step, sock: i32, port: u16)
    requires
        step !is Answered,
        step !is Abandoned,
    ensures
        step_after(step, Outcome::Failed, sock, port) == Ok::<Step, RecvError>(Step::Abandoned),
        forall|outcome: Outcome| !#[trigger] comes_of(Step::Abandoned, outcome),
{
}

/// A reported call to bind the endpoint's port is answered in four steps: the report is
/// received, the address read, the listening socket put into the child, and the answer
/// sent. Any other reported call is answered without the third. A number that does not
/// fit ends the matter before anything is done to the child.
pub proof fn law_steps_of_answer(notif: Notif, addr: SockAddrIn, sock: i32, port: u16)
    requires
        has_sockaddr_in(notif),
    ensures
        match (bind_addr_of(notif), reply_of(notif, addr, sock, port)) {
            (Ok(from), Ok(reply)) => {
                let read = step_after(Step::Receive, Outcome::Received { notif }, sock, port);
                let first = step_after(read->Ok_0, Outcome::Address { addr }, sock, port);
                let send = if is_endpoint(addr, port) {
                    step_after(first->Ok_0, Outcome::Placed, sock, port)
                } else {
                    first
                };
                &&& read == Ok::<Step, RecvError>(Step::Read { notif, from })
                &&& is_endpoint(addr, port) ==> first == Ok::<Step, RecvError>(
                    Step::Place { addfd: reply.addfd->0, resp: reply.resp },
                )
                &&& send == Ok::<Step, RecvError>(Step::Send { resp: reply.resp })
                &&& step_after(send->Ok_0, Outcome::Sent, sock, port) == Ok::<Step, RecvError>(
                    Step::Answered,
                )
            },
            (Err(error), _) => step_after(Step::Receive, Outcome::Received { notif }, sock, port)
                == Err::<Step, RecvError>(error),
            (Ok(from), Err(error)) => step_after(
                Step::Read { notif, from },
                Outcome::Address { addr },
                sock,
                port,
            ) == Err::<Step, RecvError>(error),
        },
{
}

/// Each step has the one outcome that it is for, or fails; a step that is none has no
/// outcome. What a report must say is the length of its address.
pub proof fn law_outcomes_of_steps(step: Step, outcome: Outcome)
    ensures
        comes_of(step, outcome) <==> match (step, outcome) {
            (Step::Receive, Outcome::Received { notif }) => notif.data.args@[2] as usize == 16,
            (Step::Read { .. }, Outcome::Address { .. }) => true,
            (Step::Place { .. }, Outcome::Placed) => true,
            (Step::Send { .. }, Outcome::Sent) => true,
            (Step::Answered, _) => false,
            (Step::Abandoned, _) => false,
            (_, Outcome::Failed) => true,
            _ => false,
        },
{
}

/// What follows the receipt of a report: the 16 bytes are read to which the call's second
/// argument points, in the process that made it.
pub proof fn law_after_receipt(notif: Notif, sock: i32, port: u16)
    ensures
        step_after(Step::Receive, Outcome::Received { notif }, sock, port) == if notif.pid
            < 0x8000_0000 {
            Ok::<Step, RecvError>(
                Step::Read {
                    notif,
                    from: RemoteRead {
                        pid: notif.pid as i32,
                        addr: notif.data.args@[1],
                        len: 16,
                    },
                },
            )
        } else {
            Err(RecvError::Pid)
        },
{
}

/// What follows the reading of the address: where it is an IPv4 address with the
/// endpoint's port, the listening socket is put in place of the descriptor that is the
/// call's first argument; where it is another, the call is let go on.
pub proof fn law_after_reading(
    notif: Notif,
    from: RemoteRead,
    addr: SockAddrIn,
    sock: i32,
    port: u16,
)
    ensures
        ({
            let binds = addr.family == 2 && addr.port@[0] * 256 + addr.port@[1] == port;
            step_after(Step::Read { notif, from }, Outcome::Address { addr }, sock, port) == if !binds {
                Ok::<Step, RecvError>(
                    Step::Send {
                        resp: NotifResp { id: notif.id, val: 0, error: 0, flags: 1 },
                    },
                )
            } else if sock < 0 {
                Err(RecvError::SourceFd)
            } else if notif.data.args@[0] > 0xffff_ffff {
                Err(RecvError::TargetFd)
            } else {
                Ok(
                    Step::Place {
                        addfd: NotifAddfd {
                            id: notif.id,
                            flags: 1,
                            srcfd: sock as u32,
                            newfd: notif.data.args@[0] as u32,
                            newfd_flags: 0,
                        },
                        resp: NotifResp { id: notif.id, val: 0, error: 0, flags: 0 },
                    },
                )
            }
        }),
{
}

/// What follows the placing of the descriptor: the answer that goes with it is sent. What
/// follows that: nothing.
pub proof fn law_after_placing(addfd: NotifAddfd, resp: NotifResp, sock: i32, port: u16)
    ensures
        step_after(Step::Place { addfd, resp }, Outcome::Placed, sock, port) == Ok::<
            Step,
            RecvError,
        >(Step::Send { resp }),
        step_after(Step::Send { resp }, Outcome::Sent, sock, port) == Ok::<Step, RecvError>(
            Step::Answered,
        ),
{
}

/// What is decided after a step is what its outcome asks for. After a report the address
/// is read to which the call points; after an address that is the endpoint's the listening
/// socket is placed, and after any other the call is let go on; after that the answer is
/// sent; after a failure nothing is done.
pub proof fn law_decided_step(
    step: Step,
    outcome: Outcome,
    sock: i32,
    port: u16,
    r: Result<Step, RecvError>,
)
    requires
        comes_of(step, outcome),
        call_ensures(next_step, (step, outcome, sock, port), r),
    ensures
        outcome is Failed ==> r == Ok::<Step, RecvError>(Step::Abandoned),
        outcome is Sent ==> r == Ok::<Step, RecvError>(Step::Answered),
        outcome is Placed ==> r == Ok::<Step, RecvError>(Step::Send { resp: step->Place_resp }),
        outcome matches Outcome::Received { notif } ==> match r {
            Ok(next) => next is Read && next->notif == notif && next->from.addr
                == notif.data.args@[1] && next->from.pid == notif.pid && next->from.len == 16,
            Err(error) => error == RecvError::Pid && notif.pid > i32::MAX,
        },
        outcome matches Outcome::Address { addr } ==> {
            let binds = addr.family == 2 && addr.port@[0] * 256 + addr.port@[1] == port;
            match r {
                Ok(next) => if binds {
                    &&& next is Place
                    &&& next->addfd.srcfd == sock
                    &&& next->addfd.newfd == step->notif.data.args@[0]
                    &&& next->Place_resp.flags == 0
                } else {
                    next is Send && next->Send_resp.flags == 1
                },
                Err(_) => binds && (sock < 0 || step->notif.data.args@[0] > 0xffff_ffff),
            }
        },
{
}

} // verus!
