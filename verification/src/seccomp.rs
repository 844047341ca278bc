//! Watching for a child's `bind` call, and answering it.
//!
//! A child runs under a filter that reports each `bind` to an address of the size of
//! an IPv4 socket address. Where the child binds the endpoint's port, its socket is
//! replaced by the one that already listens, and the call is answered as done. Any
//! other call is left to the kernel.
use vstd::prelude::*;

use crate::bpf::{load, low, high, run, SeccompData, SockFilter, JUMP_IF_EQUAL, LOAD, RETURN};

verus! {

/// The parts of which BPF operations are put together.
struct BpfCodes {
    ld: u32,
    w: u32,
    abs: u32,
    jmp: u32,
    jeq: u32,
    k: u32,
    ret: u32,
}

/// The numbers of the kernel's seccomp interface.
struct SeccompNumbers {
    ret_user_notif: u32,
    ret_allow: u32,
    addfd_flag_setfd: u32,
    user_notif_flag_continue: u32,
}

/// The size of an IPv4 socket address.
pub const SOCKADDR_IN_SIZE: u32 = 16;

/// The size of a seccomp notification.
pub const SECCOMP_NOTIF_SIZE: usize = 80;

/// The address family of IPv4.
pub const AF_INET: u16 = 2;

/// The filter's verdict that the call is to be reported.
pub const RET_USER_NOTIF: u32 = 0x7fc0_0000;

/// The filter's verdict that the call is to go on.
pub const RET_ALLOW: u32 = 0x7fff_0000;

/// The flag that asks for a descriptor at a given number.
pub const ADDFD_FLAG_SETFD: u32 = 1;

/// The flag that lets a reported call go on.
pub const USER_NOTIF_FLAG_CONTINUE: u32 = 1;

/// The constants `BPF_LD`, `BPF_W`, `BPF_ABS`, `BPF_JMP`, `BPF_JEQ`, `BPF_K` and
/// `BPF_RET` of libc, with the values that it gives them.
#[verifier::external_body]
fn bpf_codes() -> (c: BpfCodes)
    ensures
        c.ld == 0x00,
        c.w == 0x00,
        c.abs == 0x20,
        c.jmp == 0x05,
        c.jeq == 0x10,
        c.k == 0x00,
        c.ret == 0x06,
{
    BpfCodes {
        ld: libc::BPF_LD,
        w: libc::BPF_W,
        abs: libc::BPF_ABS,
        jmp: libc::BPF_JMP,
        jeq: libc::BPF_JEQ,
        k: libc::BPF_K,
        ret: libc::BPF_RET,
    }
}

/// The constants `SECCOMP_RET_USER_NOTIF`, `SECCOMP_RET_ALLOW`,
/// `SECCOMP_ADDFD_FLAG_SETFD` and `SECCOMP_USER_NOTIF_FLAG_CONTINUE` of libc, with
/// the values that it gives them.
#[verifier::external_body]
fn seccomp_numbers() -> (n: SeccompNumbers)
    ensures
        n.ret_user_notif == RET_USER_NOTIF,
        n.ret_allow == RET_ALLOW,
        n.addfd_flag_setfd == ADDFD_FLAG_SETFD,
        n.user_notif_flag_continue == USER_NOTIF_FLAG_CONTINUE,
{
    SeccompNumbers {
        ret_user_notif: libc::SECCOMP_RET_USER_NOTIF,
        ret_allow: libc::SECCOMP_RET_ALLOW,
        addfd_flag_setfd: libc::SECCOMP_ADDFD_FLAG_SETFD as u32,
        user_notif_flag_continue: libc::SECCOMP_USER_NOTIF_FLAG_CONTINUE as u32,
    }
}

/// The constant `AF_INET` of libc.
#[verifier::external_body]
fn af_inet() -> (family: u16)
    ensures
        family == AF_INET,
{
    libc::AF_INET as u16
}

/// Whether a number is that of the system call `bind` on some machine. It differs
/// between machines.
pub open spec fn is_bind_nr(nr: u32) -> bool {
    // x86_64, and the same under the x32 interface
    ||| nr == 49
    ||| nr == 0x4000_0000 + 49
    // the numbers that newer machines share: aarch64, riscv, loongarch64, csky, hexagon
    ||| nr == 200
    // arm
    ||| nr == 282
    // powerpc
    ||| nr == 327
    // sparc
    ||| nr == 353
    // m68k
    ||| nr == 358
    // x86, s390x
    ||| nr == 361
    // mips, mips64
    ||| nr == 4000 + 169
    ||| nr == 5000 + 48
}

/// The constant `SYS_bind` of libc: the number of the system call `bind` on the machine
/// that the program is built for. It is one of those that libc gives for a machine that
/// runs Linux; which of them is left unsaid.
#[verifier::external_body]
fn sys_bind() -> (nr: u32)
    ensures
        is_bind_nr(nr),
{
    libc::SYS_bind as u32
}

/// The size of `sockaddr_in` of libc.
#[verifier::external_body]
fn sockaddr_in_size() -> (size: u32)
    ensures
        size == SOCKADDR_IN_SIZE,
{
    core::mem::size_of::<libc::sockaddr_in>() as u32
}

/// The size of `seccomp_notif` of libc.
#[verifier::external_body]
fn seccomp_notif_size() -> (size: usize)
    ensures
        size == SECCOMP_NOTIF_SIZE,
{
    core::mem::size_of::<libc::seccomp_notif>()
}

/// `ntohs` of libc, on the two bytes of a number as they stand in memory: of the two
/// bytes in network order the first is the high one.
#[verifier::external_body]
fn ntohs(bytes: [u8; 2]) -> (n: u16)
    ensures
        n == bytes@[0] * 256 + bytes@[1],
{
    libc::ntohs(u16::from_ne_bytes(bytes))
}

/// The kernel's notifications are not of the size that is expected.
#[derive(Debug, Clone, Copy, PartialEq, Eq, Structural)]
pub struct SizeMismatch {
    pub size: u16,
    pub expected: usize,
}

/// Compares the size that the kernel gives for a notification with the expected one.
pub fn check_struct_sizes(seccomp_notif: u16) -> (r: Result<(), SizeMismatch>)
    ensures
        r == if seccomp_notif == SECCOMP_NOTIF_SIZE {
            Ok::<(), SizeMismatch>(())
        } else {
            Err(SizeMismatch { size: seccomp_notif, expected: SECCOMP_NOTIF_SIZE })
        },
{
    let expected = seccomp_notif_size();
    if seccomp_notif as usize != expected {
        return Err(SizeMismatch { size: seccomp_notif, expected });
    }
    Ok(())
}

/// An instruction that does not jump.
pub open spec fn plain(code: u16, k: u32) -> SockFilter {
    SockFilter { code, jt: 0, jf: 0, k }
}

/// A comparison that goes on with the next instruction if it holds, and skips
/// `otherwise` instructions if it does not.
pub open spec fn expect(k: u32, otherwise: u8) -> SockFilter {
    SockFilter { code: JUMP_IF_EQUAL, jt: 0, jf: otherwise, k }
}

/// The filter that reports the system call `bind_nr` with an address of the size of
/// an IPv4 socket address.
pub open spec fn filter_of(bind_nr: u32) -> Seq<SockFilter> {
    seq![
        plain(LOAD, 0),
        expect(bind_nr, 5),
        plain(LOAD, 32),
        expect(SOCKADDR_IN_SIZE, 3),
        plain(LOAD, 36),
        expect(0, 1),
        plain(RETURN, RET_USER_NOTIF),
        plain(RETURN, RET_ALLOW),
    ]
}

fn bpf(code: u32, k: u32) -> (f: SockFilter)
    requires
        code <= u16::MAX,
    ensures
        f == plain(code as u16, k),
{
    SockFilter { code: code as u16, jt: 0, jf: 0, k }
}

/// The filter for a machine on which `bind` is system call `bind_nr`.
pub fn bind_filter(bind_nr: u32) -> (filter: [SockFilter; 8])
    ensures
        filter@ == filter_of(bind_nr),
{
    let c = bpf_codes();
    let n = seccomp_numbers();
    let load_word: u32 = c.ld | c.abs | c.w;
    let jump: u32 = c.jmp | c.jeq | c.k;
    let ret: u32 = c.ret | c.k;
    assert(0x00u32 | 0x20u32 | 0x00u32 == 0x20u32) by (bit_vector);
    assert(0x05u32 | 0x10u32 | 0x00u32 == 0x15u32) by (bit_vector);
    assert(0x06u32 | 0x00u32 == 0x06u32) by (bit_vector);
    let filter = [
        // 0: load nr
        bpf(load_word, 0),
        // 1: if nr != bind, continue
        SockFilter { code: jump as u16, jt: 0, jf: 5, k: bind_nr },
        // 2: load args[2].lo
        bpf(load_word, 4 * 4 + 2 * 8),
        // 3: if args[2].lo != sizeof(sockaddr_in), continue
        SockFilter { code: jump as u16, jt: 0, jf: 3, k: sockaddr_in_size() },
        // 4: load args[2].hi
        bpf(load_word, 4 * 4 + 2 * 8 + 4),
        // 5: if args[2].hi != 0, continue
        SockFilter { code: jump as u16, jt: 0, jf: 1, k: 0 },
        // 6: report the system call
        bpf(ret, n.ret_user_notif),
        // 7: ignore the system call
        bpf(ret, n.ret_allow),
    ];
    assert(filter@ =~= filter_of(bind_nr));
    filter
}

/// Whether a number is what libc gives for the system call `bind` on this machine.
pub closed spec fn is_bind_nr_here(nr: u32) -> bool {
    call_ensures(sys_bind, (), nr)
}

/// The filter for this machine: the one for the number that libc gives for `bind`.
pub fn register_filter() -> (filter: [SockFilter; 8])
    ensures
        exists|bind_nr: u32|
            is_bind_nr_here(bind_nr) && is_bind_nr(bind_nr) && filter@ == #[trigger] filter_of(
                bind_nr,
            ),
{
    let number_of_bind = sys_bind;
    let bind_nr: u32 = number_of_bind();
    assert(is_bind_nr_here(bind_nr));
    bind_filter(bind_nr)
}

/// A system call that the filter has reported.
#[derive(Debug, Clone, Copy, PartialEq, Eq)]
pub struct Notif {
    pub id: u64,
    pub pid: u32,
    pub flags: u32,
    pub data: SeccompData,
}

/// A part of the memory of a process.
#[derive(Debug, Clone, Copy, PartialEq, Eq, Structural)]
pub struct RemoteRead {
    pub pid: i32,
    pub addr: u64,
    pub len: u32,
}

/// An IPv4 socket address, as far as it is looked at: the family, and the port in
/// network order, as its two bytes stand in memory.
#[derive(Debug, Clone, Copy, PartialEq, Eq)]
pub struct SockAddrIn {
    pub family: u16,
    pub port: [u8; 2],
}

/// Why a call cannot be answered: a number does not fit where it has to go.
#[derive(Debug, Clone, Copy, PartialEq, Eq, Structural)]
pub enum RecvError {
    /// The number of the process.
    Pid,
    /// The descriptor of the listening socket.
    SourceFd,
    /// The descriptor that the child wants to bind.
    TargetFd,
}

/// A descriptor to be put into the child.
#[derive(Debug, Clone, Copy, PartialEq, Eq, Structural)]
pub struct NotifAddfd {
    pub id: u64,
    pub flags: u32,
    pub srcfd: u32,
    pub newfd: u32,
    pub newfd_flags: u32,
}

/// The answer to a reported call.
#[derive(Debug, Clone, Copy, PartialEq, Eq, Structural)]
pub struct NotifResp {
    pub id: u64,
    pub val: i64,
    pub error: i32,
    pub flags: u32,
}

/// What is to be done about a reported call: a descriptor to put into the child, if
/// any, and then the answer.
#[derive(Debug, Clone, Copy, PartialEq, Eq, Structural)]
pub struct Reply {
    pub addfd: Option<NotifAddfd>,
    pub resp: NotifResp,
}

/// Whether the length that a reported `bind` call gives for its address is that of
/// an IPv4 socket address.
pub open spec fn has_sockaddr_in(notif: Notif) -> bool {
    notif.data.args@[2] as usize == SOCKADDR_IN_SIZE as usize
}

/// Checks the length that a reported `bind` call gives for its address.
pub fn is_sockaddr_in(notif: &Notif) -> (b: bool)
    ensures
        b == has_sockaddr_in(*notif),
{
    notif.data.args[2] as usize == sockaddr_in_size() as usize
}

/// Where the address stands that a reported call wants to bind.
pub open spec fn bind_addr_of(notif: Notif) -> Result<RemoteRead, RecvError> {
    if notif.pid <= i32::MAX {
        Ok(
            RemoteRead {
                pid: notif.pid as i32,
                addr: notif.data.args@[1],
                len: SOCKADDR_IN_SIZE,
            },
        )
    } else {
        Err(RecvError::Pid)
    }
}

/// Finds where the address stands that a reported call wants to bind.
pub fn bind_addr(notif: &Notif) -> (r: Result<RemoteRead, RecvError>)
    requires
        has_sockaddr_in(*notif),
    ensures
        r == bind_addr_of(*notif),
{
    if notif.pid > i32::MAX as u32 {
        return Err(RecvError::Pid);
    }
    Ok(
        RemoteRead {
            pid: notif.pid as i32,
            addr: notif.data.args[1],
            len: sockaddr_in_size(),
        },
    )
}

/// The port of a socket address.
pub open spec fn port_of(addr: SockAddrIn) -> int {
    addr.port@[0] * 256 + addr.port@[1]
}

/// Whether a socket address is the endpoint's: an IPv4 address with its port.
pub open spec fn is_endpoint(addr: SockAddrIn, port: u16) -> bool {
    addr.family == AF_INET && port_of(addr) == port
}

/// What is to be done about a call that wants to bind `addr`, where the socket `sock`
/// listens on `port`.
pub open spec fn reply_of(notif: Notif, addr: SockAddrIn, sock: i32, port: u16) -> Result<
    Reply,
    RecvError,
> {
    if !is_endpoint(addr, port) {
        Ok(
            Reply {
                addfd: None,
                resp: NotifResp {
                    id: notif.id,
                    val: 0,
                    error: 0,
                    flags: USER_NOTIF_FLAG_CONTINUE,
                },
            },
        )
    } else if sock < 0 {
        Err(RecvError::SourceFd)
    } else if notif.data.args@[0] > u32::MAX {
        Err(RecvError::TargetFd)
    } else {
        Ok(
            Reply {
                addfd: Some(
                    NotifAddfd {
                        id: notif.id,
                        flags: ADDFD_FLAG_SETFD,
                        srcfd: sock as u32,
                        newfd: notif.data.args@[0] as u32,
                        newfd_flags: 0,
                    },
                ),
                resp: NotifResp { id: notif.id, val: 0, error: 0, flags: 0 },
            },
        )
    }
}

/// Decides what is to be done about a reported call.
pub fn reply(notif: &Notif, addr: &SockAddrIn, sock: i32, port: u16) -> (r: Result<
    Reply,
    RecvError,
>)
    ensures
        r == reply_of(*notif, *addr, sock, port),
{
    let n = seccomp_numbers();
    if addr.family == af_inet() && ntohs(addr.port) == port {
        if sock < 0 {
            return Err(RecvError::SourceFd);
        }
        let fd = notif.data.args[0];
        if fd > u32::MAX as u64 {
            return Err(RecvError::TargetFd);
        }
        let addfd = NotifAddfd {
            id: notif.id,
            flags: n.addfd_flag_setfd,
            srcfd: sock as u32,
            newfd: fd as u32,
            newfd_flags: 0,
        };
        Ok(
            Reply {
                addfd: Some(addfd),
                resp: NotifResp { id: notif.id, val: 0, error: 0, flags: 0 },
            },
        )
    } else {
        Ok(
            Reply {
                addfd: None,
                resp: NotifResp {
                    id: notif.id,
                    val: 0,
                    error: 0,
                    flags: n.user_notif_flag_continue,
                },
            },
        )
    }
}

/// The filter gives a verdict on every system call: it reports `bind` with an address
/// of the size of an IPv4 socket address, and lets everything else go on. This is
/// said of a little-endian machine.
pub proof fn law_filter_reports_bind(bind_nr: u32, d: SeccompData)
    ensures
        run(filter_of(bind_nr), d, 0, 0) == Some(
            if d.nr as u32 == bind_nr && d.args@[2] == 16 {
                0x7fc0_0000u32
            } else {
                0x7fff_0000u32
            },
        ),
{
    let x = d.args@[2];
    reveal_with_fuel(run, 9);
    assert(load(d, 0) == Some(d.nr as u32));
    assert(load(d, 32) == Some(low(x)));
    assert(load(d, 36) == Some(high(x)));
    assert((low(x) == SOCKADDR_IN_SIZE && high(x) == 0) == (x == SOCKADDR_IN_SIZE));
}

/// A call that the filter reports has an address that can be read.
pub proof fn law_reported_can_be_read(bind_nr: u32, notif: Notif)
    requires
        run(filter_of(bind_nr), notif.data, 0, 0) == Some(RET_USER_NOTIF),
    ensures
        has_sockaddr_in(notif),
{
    law_filter_reports_bind(bind_nr, notif.data);
}

/// The filters for two numbers are the same but for the number, which stands in the
/// second of eight instructions, as what is compared.
pub proof fn law_filter_differs_in_number(a: u32, b: u32)
    ensures
        filter_of(a).len() == 8,
        filter_of(a)[1].k == a,
        filter_of(b) == filter_of(a).update(1, SockFilter { k: b, ..filter_of(a)[1] }),
{
    assert(filter_of(b) =~= filter_of(a).update(1, SockFilter { k: b, ..filter_of(a)[1] }));
}

/// The address of a reported call stands where the second argument of the call points,
/// the whole of it, in the process that made the call, and takes 16 bytes. It cannot be
/// read exactly if the number of the process does not fit.
pub proof fn law_place_of_address(notif: Notif)
    ensures
        bind_addr_of(notif) is Ok <==> notif.pid < 0x8000_0000,
        bind_addr_of(notif) matches Ok(from) ==> {
            &&& from.pid == notif.pid
            &&& from.addr == notif.data.args@[1]
            &&& from.len == 16
        },
        bind_addr_of(notif) matches Err(error) ==> error == RecvError::Pid,
{
}

/// A report is of an IPv4 socket address exactly if the third argument of the call is 16,
/// as far as an address space can hold it.
pub proof fn law_length_of_address(notif: Notif)
    ensures
        has_sockaddr_in(notif) <==> notif.data.args@[2] as usize == 16,
        notif.data.args@[2] <= usize::MAX ==> (has_sockaddr_in(notif) <==> notif.data.args@[2]
            == 16),
{
}

/// A call is answered in one of two ways, under its own number and with no error.
/// Either the child gets the listening socket in place of its own, and the call does
/// not go on: this is so exactly if it binds an IPv4 address with the endpoint's port,
/// of which the first byte is the high one. Or nothing is put into the child, and the
/// call goes on. There is no answer exactly if the child is to get the listening socket
/// and the number of either descriptor does not fit.
pub proof fn law_reply_or_continue(notif: Notif, addr: SockAddrIn, sock: i32, port: u16)
    ensures
        ({
            let binds = addr.family == 2 && addr.port@[0] * 256 + addr.port@[1] == port;
            let r = reply_of(notif, addr, sock, port);
            &&& is_endpoint(addr, port) <==> binds
            &&& !binds ==> r is Ok && r->Ok_0.addfd is None && r->Ok_0.resp.flags == 1
            &&& binds && sock < 0 ==> r == Err::<Reply, RecvError>(RecvError::SourceFd)
            &&& binds && sock >= 0 && notif.data.args@[0] > 0xffff_ffff ==> r == Err::<
                Reply,
                RecvError,
            >(RecvError::TargetFd)
            &&& binds && sock >= 0 && notif.data.args@[0] <= 0xffff_ffff ==> {
                &&& r is Ok && r->Ok_0.addfd is Some && r->Ok_0.resp.flags == 0
                &&& r->Ok_0.addfd->0.id == notif.id
                &&& r->Ok_0.addfd->0.flags == 1
                &&& r->Ok_0.addfd->0.srcfd == sock
                &&& r->Ok_0.addfd->0.newfd == notif.data.args@[0]
                &&& r->Ok_0.addfd->0.newfd_flags == 0
            }
            &&& r is Ok ==> {
                &&& r->Ok_0.resp.id == notif.id
                &&& r->Ok_0.resp.val == 0
                &&& r->Ok_0.resp.error == 0
            }
        }),
{
}

/// The size that the kernel gives passes the check exactly if it is 80; otherwise both
/// sizes are reported.
pub proof fn law_checked_size(seccomp_notif: u16, r: Result<(), SizeMismatch>)
    requires
        call_ensures(check_struct_sizes, (seccomp_notif,), r),
    ensures
        r is Ok <==> seccomp_notif == 80,
        r matches Err(error) ==> error.size == seccomp_notif && error.expected == 80,
{
}

/// What is put before the kernel and sent to it is what has been decided: the filter of a
/// number, the check of a report, the place of its address and the reply.
pub proof fn law_decided(
    bind_nr: u32,
    filter: [SockFilter; 8],
    notif: &Notif,
    addr: &SockAddrIn,
    sock: i32,
    port: u16,
    is: bool,
    from: Result<RemoteRead, RecvError>,
    r: Result<Reply, RecvError>,
)
    requires
        call_ensures(bind_filter, (bind_nr,), filter),
        call_ensures(is_sockaddr_in, (notif,), is),
        call_ensures(bind_addr, (notif,), from),
        call_ensures(reply, (notif, addr, sock, port), r),
    ensures
        filter@.len() == 8 && filter@[1].k == bind_nr,
        forall|d: SeccompData|
            d.nr as u32 == bind_nr && d.args@[2] == 16 ==> #[trigger] run(filter@, d, 0, 0) == Some(
                0x7fc0_0000u32,
            ),
        forall|d: SeccompData|
            !(d.nr as u32 == bind_nr && d.args@[2] == 16) ==> #[trigger] run(filter@, d, 0, 0)
                == Some(0x7fff_0000u32),
        is <==> notif.data.args@[2] as usize == 16,
        from is Ok ==> from->Ok_0.addr == notif.data.args@[1] && from->Ok_0.pid == notif.pid,
        from is Ok ==> from->Ok_0.len == 16,
        from is Err <==> notif.pid > i32::MAX,
        r is Ok ==> (r->Ok_0.addfd is Some <==> addr.family == 2 && addr.port@[0] * 256
            + addr.port@[1] == port),
        r is Ok ==> r->Ok_0.resp.id == notif.id && r->Ok_0.resp.val == 0 && r->Ok_0.resp.error == 0,
        r is Ok ==> r->Ok_0.resp.flags == if r->Ok_0.addfd is Some {
            0u32
        } else {
            1
        },
        r is Ok && r->Ok_0.addfd is Some ==> {
            let addfd = r->Ok_0.addfd->0;
            &&& addfd.id == notif.id && addfd.flags == 1 && addfd.newfd_flags == 0
            &&& addfd.srcfd == sock && addfd.newfd == notif.data.args@[0]
        },
        r is Err <==> addr.family == 2 && addr.port@[0] * 256 + addr.port@[1] == port && (sock < 0
            || notif.data.args@[0] > 0xffff_ffff),
        r is Err ==> r->Err_0 == if sock < 0 {
            RecvError::SourceFd
        } else {
            RecvError::TargetFd
        },
        from is Err ==> from->Err_0 == RecvError::Pid,
{
    law_filter_differs_in_number(bind_nr, bind_nr);
    assert forall|d: SeccompData| #[trigger]
        run(filter@, d, 0, 0) == Some(
            if d.nr as u32 == bind_nr && d.args@[2] == 16 {
                0x7fc0_0000u32
            } else {
                0x7fff_0000u32
            },
        ) by {
        law_filter_reports_bind(bind_nr, d);
    }
    law_reply_or_continue(*notif, *addr, sock, port);
}

/// The filter that is registered compares the number of a call with what libc gives for
/// `bind` on this machine. Of such calls it reports those with an address of 16 bytes, and
/// it lets everything else go on.
pub proof fn law_registered(filter: [SockFilter; 8], d: SeccompData)
    requires
        call_ensures(register_filter, (), filter),
    ensures
        is_bind_nr_here(filter@[1].k),
        is_bind_nr(filter@[1].k),
        run(filter@, d, 0, 0) == Some(
            if d.nr as u32 == filter@[1].k && d.args@[2] == 16 {
                0x7fc0_0000u32
            } else {
                0x7fff_0000u32
            },
        ),
{
    let bind_nr = choose|bind_nr: u32|
        is_bind_nr_here(bind_nr) && is_bind_nr(bind_nr) && filter@ == #[trigger] filter_of(bind_nr);
    law_filter_differs_in_number(bind_nr, bind_nr);
    law_filter_reports_bind(bind_nr, d);
}

} // verus!
