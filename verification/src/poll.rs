//! Which descriptors are polled for which endpoints, and what the result means.
use vstd::prelude::*;

use crate::endpoint::{phase_of, readable, Action, Endpoint, Event, State};

verus! {

/// Which of its descriptors an endpoint is watched by.
#[derive(Debug, Clone, Copy, PartialEq, Eq, Structural)]
pub enum Source {
    /// The child.
    Pid,
    /// The socket that listens.
    Sock,
    /// The unix socket to the child.
    Ipc,
    /// The descriptor of the child's reports.
    Seccomp,
}

/// A descriptor to be polled: one of the endpoint at `index`.
#[derive(Debug, Clone, Copy, PartialEq, Eq, Structural)]
pub struct Watch {
    pub index: usize,
    pub source: Source,
}

/// What an endpoint's child is watched by.
pub open spec fn child_source<F>(e: Endpoint<F>) -> Seq<Source> {
    if e.pidfd is Some {
        seq![Source::Pid]
    } else {
        Seq::empty()
    }
}

/// What an endpoint waits for in its state.
pub open spec fn state_source<F>(e: Endpoint<F>) -> Seq<Source> {
    match e.state {
        State::Stopped => seq![Source::Sock],
        State::NeedSeccompFd { .. } => seq![Source::Ipc],
        State::NeedSeccompNotify { .. } => seq![Source::Seccomp],
        State::Started => Seq::empty(),
    }
}

/// The descriptors that an endpoint is watched by.
pub open spec fn sources<F>(e: Endpoint<F>) -> Seq<Source> {
    child_source(e) + state_source(e)
}

/// The watches of the endpoint at `index`.
pub open spec fn watches_at(sources: Seq<Source>, index: int) -> Seq<Watch> {
    sources.map_values(|source: Source| Watch { index: index as usize, source })
}

/// The watches of the first `n` endpoints, in their order.
pub open spec fn watches_of<F>(endpoints: Seq<Endpoint<F>>, n: int) -> Seq<Watch>
    decreases n,
{
    if n <= 0 {
        Seq::empty()
    } else {
        watches_of(endpoints, n - 1) + watches_at(sources(endpoints[n - 1]), n - 1)
    }
}

/// A descriptor of an endpoint.
pub open spec fn fd_of<F>(e: Endpoint<F>, source: Source) -> Option<F> {
    match source {
        Source::Pid => match e.pidfd {
            Some((fd, _)) => Some(fd),
            None => None,
        },
        Source::Sock => Some(e.sock),
        Source::Ipc => match e.state {
            State::NeedSeccompFd { ipc, .. } => Some(ipc),
            _ => None,
        },
        Source::Seccomp => match e.state {
            State::NeedSeccompNotify { seccomp, .. } => Some(seccomp),
            _ => None,
        },
    }
}

/// The flags that are kept for a descriptor of an endpoint. None are kept for the
/// socket that listens.
pub open spec fn flags_of<F>(e: Endpoint<F>, source: Source) -> Option<u16> {
    match source {
        Source::Pid => match e.pidfd {
            Some((_, flags)) => Some(flags),
            None => None,
        },
        Source::Sock => None,
        Source::Ipc => match e.state {
            State::NeedSeccompFd { ipc_in, .. } => Some(ipc_in),
            _ => None,
        },
        Source::Seccomp => match e.state {
            State::NeedSeccompNotify { seccomp_in, .. } => Some(seccomp_in),
            _ => None,
        },
    }
}

/// An endpoint with other flags for one of its descriptors.
pub open spec fn with_flags<F>(e: Endpoint<F>, source: Source, flags: u16) -> Endpoint<F> {
    match source {
        Source::Pid => match e.pidfd {
            Some((fd, _)) => Endpoint { pidfd: Some((fd, flags)), ..e },
            None => e,
        },
        Source::Sock => e,
        Source::Ipc => match e.state {
            State::NeedSeccompFd { ipc, .. } => Endpoint {
                state: State::NeedSeccompFd { ipc, ipc_in: flags },
                ..e
            },
            _ => e,
        },
        Source::Seccomp => match e.state {
            State::NeedSeccompNotify { seccomp, .. } => Endpoint {
                state: State::NeedSeccompNotify { seccomp, seccomp_in: flags },
                ..e
            },
            _ => e,
        },
    }
}

/// Whether two endpoints differ in nothing but flags.
pub open spec fn same_but_flags<F>(a: Endpoint<F>, b: Endpoint<F>) -> bool {
    &&& a.port == b.port
    &&& a.cmd == b.cmd
    &&& a.sock == b.sock
    &&& a.since == b.since
    &&& sources(a) == sources(b)
    &&& forall|source: Source| #[trigger] fd_of(a, source) == fd_of(b, source)
}

/// How many of the first `n` descriptors have an event.
pub open spec fn events_before(revents: Seq<u16>, n: int) -> int
    decreases n,
{
    if n <= 0 {
        0
    } else {
        events_before(revents, n - 1) + if revents[n - 1] != 0 {
            1int
        } else {
            0
        }
    }
}

/// Whether the descriptor at `p` has an event, and it is one of the first `cnt`.
pub open spec fn fired(revents: Seq<u16>, cnt: int, p: int) -> bool {
    &&& 0 <= p < revents.len()
    &&& revents[p] != 0
    &&& events_before(revents, p) < cnt
}

/// Whether an event is to be noted for a descriptor of the endpoint at `index`.
pub open spec fn fired_for(
    watches: Seq<Watch>,
    revents: Seq<u16>,
    cnt: int,
    n: int,
    index: int,
    source: Source,
) -> bool {
    exists|p: int|
        0 <= p < n && #[trigger] fired(revents, cnt, p) && watches[p].index == index
            && watches[p].source == source
}

/// Whether an event is to be noted for some descriptor of the endpoint at `index`.
pub open spec fn fired_at(
    watches: Seq<Watch>,
    revents: Seq<u16>,
    cnt: int,
    n: int,
    index: int,
) -> bool {
    exists|p: int| 0 <= p < n && #[trigger] fired(revents, cnt, p) && watches[p].index == index
}

/// Whether a sequence of indices goes up.
pub open spec fn ascending(s: Seq<usize>) -> bool {
    forall|i: int, j: int| 0 <= i < j < s.len() ==> s[i] < s[j]
}

/// The descriptors to be polled.
pub fn watch_list<F>(endpoints: &Vec<Endpoint<F>>) -> (watches: Vec<Watch>)
    ensures
        watches@ == watches_of(endpoints@, endpoints@.len() as int),
{
    let mut watches: Vec<Watch> = Vec::new();
    let mut i: usize = 0;
    while i < endpoints.len()
        invariant
            i <= endpoints.len(),
            watches@ == watches_of(endpoints@, i as int),
        decreases endpoints.len() - i,
    {
        let e = &endpoints[i];
        if e.pidfd.is_some() {
            watches.push(Watch { index: i, source: Source::Pid });
        }
        match &e.state {
            State::Stopped => {
                watches.push(Watch { index: i, source: Source::Sock });
            },
            State::NeedSeccompFd { .. } => {
                watches.push(Watch { index: i, source: Source::Ipc });
            },
            State::NeedSeccompNotify { .. } => {
                watches.push(Watch { index: i, source: Source::Seccomp });
            },
            State::Started => {},
        }
        i += 1;
        assert(watches@ =~= watches_of(endpoints@, i as int));
    }
    watches
}

/// A descriptor of an endpoint.
pub fn watched_fd<F>(e: &Endpoint<F>, source: Source) -> (fd: Option<&F>)
    ensures
        match fd_of(*e, source) {
            Some(f) => fd is Some && *fd->0 == f,
            None => fd is None,
        },
{
    match source {
        Source::Pid => match &e.pidfd {
            Some((fd, _)) => Some(fd),
            None => None,
        },
        Source::Sock => Some(&e.sock),
        Source::Ipc => match &e.state {
            State::NeedSeccompFd { ipc, .. } => Some(ipc),
            _ => None,
        },
        Source::Seccomp => match &e.state {
            State::NeedSeccompNotify { seccomp, .. } => Some(seccomp),
            _ => None,
        },
    }
}

fn set_flags<F>(e: &mut Endpoint<F>, source: Source, flags: u16)
    ensures
        *final(e) == with_flags(*old(e), source, flags),
{
    match source {
        Source::Pid => {
            if let Some((_, pidfd_in)) = &mut e.pidfd {
                *pidfd_in = flags;
            }
        },
        Source::Sock => {},
        Source::Ipc => {
            if let State::NeedSeccompFd { ipc_in, .. } = &mut e.state {
                *ipc_in = flags;
            }
        },
        Source::Seccomp => {
            if let State::NeedSeccompNotify { seccomp_in, .. } = &mut e.state {
                *seccomp_in = flags;
            }
        },
    }
}

/// Whether watches go by the order of the endpoints, a child before what its endpoint
/// waits for, and are of descriptors that there are; so none occurs twice.
pub open spec fn orderly<F>(watches: Seq<Watch>, endpoints: Seq<Endpoint<F>>) -> bool {
    &&& forall|p: int|
        0 <= p < watches.len() ==> {
            &&& (#[trigger] watches[p]).index < endpoints.len()
            &&& sources(endpoints[watches[p].index as int]).contains(watches[p].source)
        }
    &&& forall|p: int, q: int|
        0 <= p < q < watches.len() ==> watches[p].index <= watches[q].index && (watches[p].index
            == watches[q].index ==> watches[p].source == Source::Pid && watches[q].source
            != Source::Pid)
}

proof fn lemma_watches_orderly<F>(endpoints: Seq<Endpoint<F>>, n: int)
    requires
        0 <= n <= endpoints.len() <= usize::MAX,
    ensures
        orderly(watches_of(endpoints, n), endpoints),
        forall|p: int|
            0 <= p < watches_of(endpoints, n).len() ==> (#[trigger] watches_of(
                endpoints,
                n,
            )[p]).index < n,
    decreases n,
{
    if n > 0 {
        lemma_watches_orderly(endpoints, n - 1);
        let before = watches_of(endpoints, n - 1);
        let own = watches_at(sources(endpoints[n - 1]), n - 1);
        let all = watches_of(endpoints, n);
        assert forall|p: int| 0 <= p < all.len() implies {
            &&& (#[trigger] all[p]).index < n
            &&& sources(endpoints[all[p].index as int]).contains(all[p].source)
            &&& p >= before.len() ==> all[p].index == n - 1
        } by {
            if p >= before.len() {
                assert(all[p] == own[p - before.len()]);
            }
        }
        assert forall|p: int, q: int| 0 <= p < q < all.len() implies all[p].index <= all[q].index
            && (all[p].index == all[q].index ==> all[p].source == Source::Pid && all[q].source
            != Source::Pid) by {
            if q < before.len() {
                assert(before[p].index <= before[q].index);
                assert(all[p] == before[p] && all[q] == before[q]);
            } else if p < before.len() {
                assert(before[p].index < n - 1);
            } else {
                assert(all[p] == own[p - before.len()]);
                assert(all[q] == own[q - before.len()]);
            }
        }
    }
}

proof fn lemma_fired_step(
    watches: Seq<Watch>,
    revents: Seq<u16>,
    cnt: int,
    n: int,
    index: int,
    source: Source,
)
    requires
        0 <= n,
    ensures
        fired_at(watches, revents, cnt, n + 1, index) <==> fired_at(
            watches,
            revents,
            cnt,
            n,
            index,
        ) || (fired(revents, cnt, n) && watches[n].index == index),
        fired_for(watches, revents, cnt, n + 1, index, source) <==> fired_for(
            watches,
            revents,
            cnt,
            n,
            index,
            source,
        ) || (fired(revents, cnt, n) && watches[n].index == index && watches[n].source == source),
{
    if fired_at(watches, revents, cnt, n, index) {
        let p = choose|p: int|
            0 <= p < n && #[trigger] fired(revents, cnt, p) && watches[p].index == index;
        assert(0 <= p < n + 1 && fired(revents, cnt, p));
    }
    if fired_for(watches, revents, cnt, n, index, source) {
        let p = choose|p: int|
            0 <= p < n && #[trigger] fired(revents, cnt, p) && watches[p].index == index
                && watches[p].source == source;
        assert(0 <= p < n + 1 && fired(revents, cnt, p));
    }
}

/// Takes note of what a poll has returned: `revents` are the events on the
/// descriptors of `watches`, of which the first `cnt` that are not empty count. The
/// flags of those events are kept, and the indices of the endpoints that they belong
/// to are returned, in order and once each.
pub fn record<F>(
    endpoints: &mut Vec<Endpoint<F>>,
    watches: &Vec<Watch>,
    revents: &Vec<u16>,
    cnt: usize,
) -> (indices: Vec<usize>)
    requires
        watches@ == watches_of(old(endpoints)@, old(endpoints)@.len() as int),
        revents@.len() == watches@.len(),
    ensures
        final(endpoints)@.len() == old(endpoints)@.len(),
        forall|i: int|
            0 <= i < old(endpoints)@.len() ==> same_but_flags(
                old(endpoints)@[i],
                #[trigger] final(endpoints)@[i],
            ),
        forall|p: int|
            #[trigger] fired(revents@, cnt as int, p) && watches@[p].source != Source::Sock
                ==> flags_of(final(endpoints)@[watches@[p].index as int], watches@[p].source)
                == Some(revents@[p]),
        forall|i: int, source: Source|
            0 <= i < old(endpoints)@.len() && !fired_for(
                watches@,
                revents@,
                cnt as int,
                revents@.len() as int,
                i,
                source,
            ) ==> #[trigger] flags_of(final(endpoints)@[i], source) == flags_of(
                old(endpoints)@[i],
                source,
            ),
        ascending(indices@),
        forall|index: usize| #[trigger]
            indices@.contains(index) <==> fired_at(
                watches@,
                revents@,
                cnt as int,
                revents@.len() as int,
                index as int,
            ),
{
    let ghost before = endpoints@;
    assert(endpoints.len() <= usize::MAX);
    proof {
        lemma_watches_orderly(before, before.len() as int);
    }
    let mut indices: Vec<usize> = Vec::new();
    let mut seen: usize = 0;
    let mut p: usize = 0;
    while p < revents.len()
        invariant
            p <= revents@.len(),
            revents@.len() == watches@.len(),
            seen <= p,
            seen == events_before(revents@, p as int),
            orderly(watches@, before),
            endpoints@.len() == before.len(),
            forall|i: int|
                0 <= i < before.len() ==> same_but_flags(before[i], #[trigger] endpoints@[i]),
            forall|q: int|
                q < p && #[trigger] fired(revents@, cnt as int, q) && watches@[q].source
                    != Source::Sock ==> flags_of(
                    endpoints@[watches@[q].index as int],
                    watches@[q].source,
                ) == Some(revents@[q]),
            forall|i: int, source: Source|
                0 <= i < before.len() && !fired_for(
                    watches@,
                    revents@,
                    cnt as int,
                    p as int,
                    i,
                    source,
                ) ==> #[trigger] flags_of(endpoints@[i], source) == flags_of(before[i], source),
            ascending(indices@),
            forall|k: int|
                0 <= k < indices@.len() ==> p > 0 && #[trigger] indices@[k] <= watches@[p
                    - 1].index,
            forall|index: usize| #[trigger]
                indices@.contains(index) <==> fired_at(
                    watches@,
                    revents@,
                    cnt as int,
                    p as int,
                    index as int,
                ),
        decreases revents.len() - p,
    {
        let flags = revents[p];
        let watch = watches[p];
        let ghost noted = endpoints@;
        let ghost found = indices@;
        if flags != 0 {
            if seen < cnt {
                set_flags(&mut endpoints[watch.index], watch.source, flags);
                if indices.len() == 0 || indices[indices.len() - 1] != watch.index {
                    indices.push(watch.index);
                }
            }
            seen += 1;
        }
        proof {
            let now = fired(revents@, cnt as int, p as int);
            assert forall|i: int, source: Source|
                0 <= i < before.len() && !fired_for(
                    watches@,
                    revents@,
                    cnt as int,
                    p + 1,
                    i,
                    source,
                ) implies #[trigger] flags_of(endpoints@[i], source) == flags_of(
                before[i],
                source,
            ) by {
                lemma_fired_step(watches@, revents@, cnt as int, p as int, i, source);
                assert(flags_of(noted[i], source) == flags_of(before[i], source));
            }
            assert forall|index: usize| #[trigger]
                indices@.contains(index) <==> fired_at(
                    watches@,
                    revents@,
                    cnt as int,
                    p + 1,
                    index as int,
                ) by {
                lemma_fired_step(
                    watches@,
                    revents@,
                    cnt as int,
                    p as int,
                    index as int,
                    watch.source,
                );
                assert(found.contains(index) <==> fired_at(
                    watches@,
                    revents@,
                    cnt as int,
                    p as int,
                    index as int,
                ));
                if indices@ != found {
                    assert(indices@ =~= found.push(watch.index));
                    assert(indices@[found.len() as int] == watch.index);
                    if found.contains(index) {
                        let k = found.index_of(index);
                        assert(indices@[k] == index);
                    }
                } else if now {
                    assert(found[found.len() - 1] == watch.index);
                }
            }
        }
        p += 1;
    }
    indices
}

/// How long a poll may last: until the first endpoint that waits for its child may
/// wait no longer, `limit` after it began. A poll may last forever if none waits.
pub fn poll_timeout<F>(endpoints: &Vec<Endpoint<F>>, now: u64, limit: u64) -> (timeout: Option<u64>)
    ensures
        match timeout {
            Some(t) => {
                &&& exists|i: int|
                    0 <= i < endpoints@.len() && (#[trigger] endpoints@[i]).patience(now, limit)
                        == Some(t)
                &&& forall|i: int|
                    0 <= i < endpoints@.len() && (#[trigger] endpoints@[i]).waits() ==> t
                        <= endpoints@[i].patience(now, limit)->0
            },
            None => forall|i: int|
                0 <= i < endpoints@.len() ==> !(#[trigger] endpoints@[i]).waits(),
        },
{
    let mut timeout: Option<u64> = None;
    let mut n: usize = 0;
    while n < endpoints.len()
        invariant
            n <= endpoints.len(),
            match timeout {
                Some(t) => {
                    &&& exists|i: int|
                        0 <= i < n && (#[trigger] endpoints@[i]).patience(now, limit) == Some(t)
                    &&& forall|i: int|
                        0 <= i < n && (#[trigger] endpoints@[i]).waits() ==> t
                            <= endpoints@[i].patience(now, limit)->0
                },
                None => forall|i: int| 0 <= i < n ==> !(#[trigger] endpoints@[i]).waits(),
            },
        decreases endpoints.len() - n,
    {
        if let Some(left) = endpoints[n].time_left(now, limit) {
            let sooner = match timeout {
                Some(t) => left < t,
                None => true,
            };
            if sooner {
                timeout = Some(left);
            }
        }
        n += 1;
    }
    timeout
}

/// No endpoint is lost sight of: a stopped one is watched by its listening socket,
/// and any other by its child and, while it waits for something, by that.
pub proof fn law_endpoint_is_watched<F>(e: Endpoint<F>)
    requires
        e.wf(),
    ensures
        sources(e) == match e.state {
            State::Stopped => seq![Source::Sock],
            State::NeedSeccompFd { .. } => seq![Source::Pid, Source::Ipc],
            State::NeedSeccompNotify { .. } => seq![Source::Pid, Source::Seccomp],
            State::Started => seq![Source::Pid],
        },
        forall|k: int| 0 <= k < sources(e).len() ==> fd_of(e, #[trigger] sources(e)[k]) is Some,
{
    assert(sources(e) =~= match e.state {
        State::Stopped => seq![Source::Sock],
        State::NeedSeccompFd { .. } => seq![Source::Pid, Source::Ipc],
        State::NeedSeccompNotify { .. } => seq![Source::Pid, Source::Seccomp],
        State::Started => seq![Source::Pid],
    });
}

proof fn lemma_watches_complete<F>(endpoints: Seq<Endpoint<F>>, n: int, i: int, source: Source)
    requires
        0 <= i < n <= endpoints.len() <= usize::MAX,
        sources(endpoints[i]).contains(source),
    ensures
        watches_of(endpoints, n).contains(Watch { index: i as usize, source }),
    decreases n,
{
    let watch = Watch { index: i as usize, source };
    let before = watches_of(endpoints, n - 1);
    if i < n - 1 {
        lemma_watches_complete(endpoints, n - 1, i, source);
        let p = before.index_of(watch);
        assert(watches_of(endpoints, n)[p] == watch);
    } else {
        let k = sources(endpoints[i]).index_of(source);
        assert(watches_of(endpoints, n)[before.len() + k] == watch);
    }
}

/// The watch list holds every descriptor by which an endpoint is watched, and no
/// other; none occurs twice, and they go by the order of the endpoints.
pub proof fn law_watch_list<F>(endpoints: Seq<Endpoint<F>>)
    requires
        endpoints.len() <= usize::MAX,
    ensures
        orderly(watches_of(endpoints, endpoints.len() as int), endpoints),
        forall|i: int, source: Source|
            0 <= i < endpoints.len() && #[trigger] sources(endpoints[i]).contains(source)
                ==> watches_of(endpoints, endpoints.len() as int).contains(
                (Watch { index: i as usize, source }),
            ),
{
    lemma_watches_orderly(endpoints, endpoints.len() as int);
    assert forall|i: int, source: Source|
        0 <= i < endpoints.len() && #[trigger] sources(endpoints[i]).contains(
            source,
        ) implies watches_of(endpoints, endpoints.len() as int).contains(
        (Watch { index: i as usize, source }),
    ) by {
        lemma_watches_complete(endpoints, endpoints.len() as int, i, source);
    }
}

proof fn lemma_events_grow(revents: Seq<u16>, p: int, n: int)
    requires
        0 <= p <= n,
    ensures
        0 <= events_before(revents, p) <= events_before(revents, n),
    decreases n,
{
    if p < n {
        lemma_events_grow(revents, p, n - 1);
    } else if p > 0 {
        lemma_events_grow(revents, p - 1, n - 1);
    }
}

/// If as many events count as there are, then all of them do.
pub proof fn law_every_event_counts(revents: Seq<u16>, p: int)
    requires
        0 <= p < revents.len(),
    ensures
        fired(revents, events_before(revents, revents.len() as int), p) <==> revents[p] != 0,
{
    lemma_events_grow(revents, p + 1, revents.len() as int);
}

/// Where as many events count as there are, events reach exactly the endpoints that have
/// a descriptor with one.
pub proof fn law_events_reach_endpoints(watches: Seq<Watch>, revents: Seq<u16>, index: int)
    requires
        revents.len() == watches.len(),
    ensures
        fired_at(
            watches,
            revents,
            events_before(revents, revents.len() as int),
            revents.len() as int,
            index,
        ) <==> exists|p: int|
            0 <= p < revents.len() && #[trigger] revents[p] != 0 && watches[p].index == index,
{
    let cnt = events_before(revents, revents.len() as int);
    assert forall|p: int| 0 <= p < revents.len() implies (fired(revents, cnt, p) <==> #[trigger]
        revents[p] != 0) by {
        law_every_event_counts(revents, p);
    }
    if exists|p: int|
        0 <= p < revents.len() && #[trigger] revents[p] != 0 && watches[p].index == index {
        let p = choose|p: int|
            0 <= p < revents.len() && #[trigger] revents[p] != 0 && watches[p].index == index;
        assert(fired(revents, cnt, p));
    }
}

/// A child that has exited is collected before anything else is done at its endpoint,
/// whatever other event there is: this is so once an event that there is something to
/// read has been noted for it.
pub proof fn law_exit_comes_first<F>(e: Endpoint<F>, flags: u16)
    requires
        flags_of(e, Source::Pid) == Some(flags),
        readable(flags),
    ensures
        e.actionable(),
        e.action_of() == Action::Reap,
{
}

/// Flags do not bear on what an endpoint is: with others it is as sound as before, in
/// the same state, and expects the same events.
pub proof fn law_flags_keep_state<F>(a: Endpoint<F>, b: Endpoint<F>, event: Event<F>)
    requires
        same_but_flags(a, b),
    ensures
        a.wf() <==> b.wf(),
        phase_of(a) == phase_of(b),
        a.expects(event) <==> b.expects(event),
{
    assert(fd_of(a, Source::Pid) == fd_of(b, Source::Pid));
    assert(child_source(a) == child_source(b));
    assert(state_source(a) =~= sources(a).skip(child_source(a).len() as int));
    assert(state_source(b) =~= sources(b).skip(child_source(b).len() as int));
    assert(state_source(a).len() > 0 ==> state_source(a)[0] == state_source(b)[0]);
}

/// The watch list, endpoint by endpoint. A child is watched exactly if there is one; the
/// listening socket exactly if the endpoint is stopped; the unix socket to the child and
/// the descriptor of its reports exactly if they are waited for. The list goes by the
/// order of the endpoints, and a child comes before what its endpoint waits for.
pub proof fn law_who_is_watched<F>(endpoints: Seq<Endpoint<F>>, i: usize, p: int, q: int)
    requires
        endpoints.len() <= usize::MAX,
    ensures
        ({
            let watches = watches_of(endpoints, endpoints.len() as int);
            let e = endpoints[i as int];
            let known = i < endpoints.len();
            &&& watches.contains(Watch { index: i, source: Source::Pid }) <==> known && e.pidfd
                is Some
            &&& watches.contains(Watch { index: i, source: Source::Sock }) <==> known && e.state
                is Stopped
            &&& watches.contains(Watch { index: i, source: Source::Ipc }) <==> known && e.state
                is NeedSeccompFd
            &&& watches.contains(Watch { index: i, source: Source::Seccomp }) <==> known
                && e.state is NeedSeccompNotify
            &&& 0 <= p < q < watches.len() ==> {
                ||| watches[p].index < watches[q].index
                ||| watches[p].index == watches[q].index && watches[p].source == Source::Pid
                    && watches[q].source != Source::Pid
            }
        }),
{
    let watches = watches_of(endpoints, endpoints.len() as int);
    lemma_watches_orderly(endpoints, endpoints.len() as int);
    lemma_is_watched(endpoints, i, Source::Pid);
    lemma_is_watched(endpoints, i, Source::Sock);
    lemma_is_watched(endpoints, i, Source::Ipc);
    lemma_is_watched(endpoints, i, Source::Seccomp);
    if i < endpoints.len() {
        lemma_sources(endpoints[i as int]);
    }
}

proof fn lemma_is_watched<F>(endpoints: Seq<Endpoint<F>>, i: usize, source: Source)
    requires
        endpoints.len() <= usize::MAX,
    ensures
        watches_of(endpoints, endpoints.len() as int).contains(Watch { index: i, source }) <==> i
            < endpoints.len() && sources(endpoints[i as int]).contains(source),
{
    let watches = watches_of(endpoints, endpoints.len() as int);
    let watch = Watch { index: i, source };
    lemma_watches_orderly(endpoints, endpoints.len() as int);
    if watches.contains(watch) {
        let p = watches.index_of(watch);
        assert(watches[p] == watch);
    }
    if i < endpoints.len() && sources(endpoints[i as int]).contains(source) {
        lemma_watches_complete(endpoints, endpoints.len() as int, i as int, source);
    }
}

proof fn lemma_sources<F>(e: Endpoint<F>)
    ensures
        sources(e).contains(Source::Pid) <==> e.pidfd is Some,
        sources(e).contains(Source::Sock) <==> e.state is Stopped,
        sources(e).contains(Source::Ipc) <==> e.state is NeedSeccompFd,
        sources(e).contains(Source::Seccomp) <==> e.state is NeedSeccompNotify,
{
    let n = child_source(e).len() as int;
    if e.pidfd is Some {
        assert(sources(e)[0] == Source::Pid);
    }
    if !(e.state is Started) {
        assert(sources(e)[n] == state_source(e)[0]);
    }
}

proof fn lemma_events_are_counted(revents: Seq<u16>, n: int)
    requires
        0 <= n <= revents.len(),
    ensures
        events_before(revents, n) == revents.take(n).filter(|flags: u16| flags != 0).len(),
    decreases n,
{
    reveal(Seq::filter);
    if n > 0 {
        lemma_events_are_counted(revents, n - 1);
        assert(revents.take(n).drop_last() =~= revents.take(n - 1));
        assert(revents.take(n).last() == revents[n - 1]);
    }
}

/// Which events count: those on descriptors before which there are fewer than `cnt`
/// descriptors with an event. So where `cnt` is the number of descriptors with an event,
/// all events count, and nothing else does.
pub proof fn law_which_events_count(revents: Seq<u16>, cnt: int, p: int)
    ensures
        fired(revents, cnt, p) <==> 0 <= p < revents.len() && revents[p] != 0 && revents.take(
            p,
        ).filter(|flags: u16| flags != 0).len() < cnt,
        cnt == revents.filter(|flags: u16| flags != 0).len() ==> (fired(revents, cnt, p) <==> 0
            <= p < revents.len() && revents[p] != 0),
{
    if 0 <= p < revents.len() {
        lemma_events_are_counted(revents, p);
        lemma_events_are_counted(revents, revents.len() as int);
        assert(revents.take(revents.len() as int) =~= revents);
        law_every_event_counts(revents, p);
    }
}

/// Whose events count: those of an endpoint's descriptor are the events on the watch of
/// that descriptor, and those of an endpoint are the events on its watches.
pub proof fn law_whose_events_count(
    watches: Seq<Watch>,
    revents: Seq<u16>,
    index: int,
    source: Source,
)
    requires
        watches.len() == revents.len(),
    ensures
        ({
            let n = revents.len() as int;
            let cnt = revents.filter(|flags: u16| flags != 0).len() as int;
            &&& fired_for(watches, revents, cnt, n, index, source) <==> exists|p: int|
                0 <= p < n && #[trigger] revents[p] != 0 && watches[p].index == index
                    && watches[p].source == source
            &&& fired_at(watches, revents, cnt, n, index) <==> exists|p: int|
                0 <= p < n && #[trigger] revents[p] != 0 && watches[p].index == index
        }),
{
    let n = revents.len() as int;
    let cnt = revents.filter(|flags: u16| flags != 0).len() as int;
    assert forall|p: int| 0 <= p < n implies (fired(revents, cnt, p) <==> #[trigger] revents[p]
        != 0) by {
        law_which_events_count(revents, cnt, p);
    }
    if exists|p: int|
        0 <= p < n && #[trigger] revents[p] != 0 && watches[p].index == index && watches[p].source
            == source {
        let p = choose|p: int|
            0 <= p < n && #[trigger] revents[p] != 0 && watches[p].index == index
                && watches[p].source == source;
        assert(fired(revents, cnt, p));
    }
    if exists|p: int| 0 <= p < n && #[trigger] revents[p] != 0 && watches[p].index == index {
        let p = choose|p: int|
            0 <= p < n && #[trigger] revents[p] != 0 && watches[p].index == index;
        assert(fired(revents, cnt, p));
    }
}

/// Where fewer events count than there are, the ones of an endpoint and of a descriptor
/// are still those on its watches that count.
pub proof fn law_events_within_count(
    watches: Seq<Watch>,
    revents: Seq<u16>,
    cnt: int,
    n: int,
    index: int,
    source: Source,
)
    ensures
        fired_for(watches, revents, cnt, n, index, source) <==> exists|p: int|
            0 <= p < n && #[trigger] fired(revents, cnt, p) && watches[p] == (Watch {
                index: index as usize,
                source,
            }) && 0 <= index <= usize::MAX,
        fired_at(watches, revents, cnt, n, index) <==> exists|p: int|
            0 <= p < n && #[trigger] fired(revents, cnt, p) && watches[p].index == index,
{
    if fired_for(watches, revents, cnt, n, index, source) {
        let p = choose|p: int|
            0 <= p < n && #[trigger] fired(revents, cnt, p) && watches[p].index == index
                && watches[p].source == source;
        assert(watches[p] == Watch { index: index as usize, source });
    }
}

/// The descriptors of an endpoint and the flags that are kept for them: the child's, the
/// listening socket, for which none are kept, and what is waited for in the two states
/// in which something is.
pub proof fn law_descriptors_and_flags<F>(e: Endpoint<F>)
    ensures
        fd_of(e, Source::Sock) == Some(e.sock) && flags_of(e, Source::Sock) is None,
        e.pidfd matches Some((fd, flags)) ==> fd_of(e, Source::Pid) == Some(fd) && flags_of(
            e,
            Source::Pid,
        ) == Some(flags),
        e.pidfd is None ==> fd_of(e, Source::Pid) is None && flags_of(e, Source::Pid) is None,
        e.state matches State::NeedSeccompFd { ipc, ipc_in } ==> fd_of(e, Source::Ipc) == Some(ipc)
            && flags_of(e, Source::Ipc) == Some(ipc_in),
        e.state !is NeedSeccompFd ==> fd_of(e, Source::Ipc) is None && flags_of(
            e,
            Source::Ipc,
        ) is None,
        e.state matches State::NeedSeccompNotify { seccomp, seccomp_in } ==> fd_of(
            e,
            Source::Seccomp,
        ) == Some(seccomp) && flags_of(e, Source::Seccomp) == Some(seccomp_in),
        e.state !is NeedSeccompNotify ==> fd_of(e, Source::Seccomp) is None && flags_of(
            e,
            Source::Seccomp,
        ) is None,
{
}

/// Two endpoints that differ in nothing but flags are of the same port, command, socket and
/// time, have the same child or none, and are in the same state with the same descriptor.
pub proof fn law_nothing_but_flags<F>(a: Endpoint<F>, b: Endpoint<F>)
    ensures
        same_but_flags(a, b) <==> {
            &&& a.port == b.port && a.cmd == b.cmd && a.sock == b.sock && a.since == b.since
            &&& match (a.pidfd, b.pidfd) {
                (Some((x, _)), Some((y, _))) => x == y,
                (None, None) => true,
                _ => false,
            }
            &&& match (a.state, b.state) {
                (State::Stopped, State::Stopped) => true,
                (State::NeedSeccompFd { ipc: x, .. }, State::NeedSeccompFd { ipc: y, .. }) => x
                    == y,
                (
                    State::NeedSeccompNotify { seccomp: x, .. },
                    State::NeedSeccompNotify { seccomp: y, .. },
                ) => x == y,
                (State::Started, State::Started) => true,
                _ => false,
            }
        },
{
    if same_but_flags(a, b) {
        law_flags_keep_state(a, b, Event::Answered);
        assert(fd_of(a, Source::Pid) == fd_of(b, Source::Pid));
        assert(fd_of(a, Source::Ipc) == fd_of(b, Source::Ipc));
        assert(fd_of(a, Source::Seccomp) == fd_of(b, Source::Seccomp));
    }
}

/// Indices that go up are distinct and in order.
pub proof fn law_ascending(s: Seq<usize>)
    ensures
        ascending(s) <==> forall|i: int, j: int| 0 <= i < j < s.len() ==> s[i] < s[j],
{
}

/// A poll lasts no longer than any endpoint that waits may go on waiting, as long as one of
/// them may, and forever exactly if none waits.
pub proof fn law_length_of_poll<F>(
    endpoints: &Vec<Endpoint<F>>,
    now: u64,
    limit: u64,
    timeout: Option<u64>,
    i: int,
)
    requires
        call_ensures(poll_timeout::<F>, (endpoints, now, limit), timeout),
    ensures
        ({
            let e = endpoints@[i];
            let waits = 0 <= i < endpoints@.len() && (e.state is NeedSeccompFd || e.state
                is NeedSeccompNotify);
            &&& waits ==> timeout is Some && timeout->0 <= limit
            &&& waits && now >= e.since && now - e.since <= limit ==> timeout->0 <= limit - (now
                - e.since)
            &&& waits && now >= e.since && now - e.since >= limit ==> timeout->0 == 0
            &&& timeout is Some ==> exists|k: int|
                0 <= k < endpoints@.len() && ((#[trigger] endpoints@[k]).state is NeedSeccompFd
                    || endpoints@[k].state is NeedSeccompNotify) && timeout->0 == if now
                    < endpoints@[k].since {
                    limit as int
                } else if now - endpoints@[k].since >= limit {
                    0
                } else {
                    limit - (now - endpoints@[k].since)
                }
        }),
{
    assert(endpoints@[i].waits() || !endpoints@[i].waits());
    if timeout is Some {
        let k = choose|k: int|
            0 <= k < endpoints@.len() && (#[trigger] endpoints@[k]).patience(now, limit) == timeout;
        assert(endpoints@[k].waits());
    }
}

/// The descriptor that is polled for a watch is the endpoint's own of that kind.
pub proof fn law_polled_descriptor<F>(e: &Endpoint<F>, source: Source, fd: Option<&F>)
    requires
        call_ensures(watched_fd::<F>, (e, source), fd),
    ensures
        source is Pid ==> (fd is Some <==> e.pidfd is Some) && (fd is Some ==> *fd->0 == (
        e.pidfd->0).0),
        source is Sock ==> fd is Some && *fd->0 == e.sock,
        source is Ipc ==> match e.state {
            State::NeedSeccompFd { ipc, .. } => fd is Some && *fd->0 == ipc,
            _ => fd is None,
        },
        source is Seccomp ==> match e.state {
            State::NeedSeccompNotify { seccomp, .. } => fd is Some && *fd->0 == seccomp,
            _ => fd is None,
        },
{
}

/// The descriptors that are polled are those by which the endpoints are watched.
pub proof fn law_polled_watches<F>(
    endpoints: &Vec<Endpoint<F>>,
    watches: Vec<Watch>,
    i: usize,
    p: int,
    q: int,
)
    requires
        call_ensures(watch_list::<F>, (endpoints,), watches),
        endpoints@.len() <= usize::MAX,
    ensures
        ({
            let e = endpoints@[i as int];
            let known = i < endpoints@.len();
            &&& watches@.contains(Watch { index: i, source: Source::Pid }) <==> known && e.pidfd
                is Some
            &&& watches@.contains(Watch { index: i, source: Source::Sock }) <==> known && e.state
                is Stopped
            &&& watches@.contains(Watch { index: i, source: Source::Ipc }) <==> known && e.state
                is NeedSeccompFd
            &&& watches@.contains(Watch { index: i, source: Source::Seccomp }) <==> known
                && e.state is NeedSeccompNotify
            &&& 0 <= p < q < watches@.len() ==> {
                ||| watches@[p].index < watches@[q].index
                ||| watches@[p].index == watches@[q].index && watches@[p].source == Source::Pid
                    && watches@[q].source != Source::Pid
            }
        }),
{
    law_who_is_watched(endpoints@, i, p, q);
}

/// Whether there is an event on the descriptor at `k`, and fewer than `cnt` descriptors
/// before it have one.
pub open spec fn counts(revents: Seq<u16>, cnt: int, k: int) -> bool {
    &&& 0 <= k < revents.len()
    &&& revents[k] != 0
    &&& revents.take(k).filter(|flags: u16| flags != 0).len() < cnt
}

/// What a poll has returned is noted. The events that count are the first `cnt`. The
/// indices are those of the endpoints that have a descriptor with an event that counts, in
/// order and once each. The flags of such an event on a child, a unix socket or a descriptor
/// of reports are kept with it; where there is none, the flags stay. Nothing else changes.
pub proof fn law_noted_events<F>(
    watches: &Vec<Watch>,
    revents: &Vec<u16>,
    cnt: usize,
    indices: Vec<usize>,
    i: usize,
    p: int,
)
    requires
        revents@.len() == watches@.len(),
    ensures
        forall|endpoints: &mut Vec<Endpoint<F>>| #[trigger]
            call_ensures(record::<F>, (endpoints, watches, revents, cnt), indices) ==> {
                &&& final(endpoints)@.len() == endpoints@.len()
                &&& indices@.contains(i) <==> exists|k: int| #[trigger]
                    counts(revents@, cnt as int, k) && watches@[k].index == i
                &&& forall|j: int, k: int|
                    0 <= j < k < indices@.len() ==> #[trigger] indices@[j] < #[trigger] indices@[k]
                &&& counts(revents@, cnt as int, p) ==> {
                    let e = final(endpoints)@[watches@[p].index as int];
                    match watches@[p].source {
                        Source::Pid => e.pidfd is Some && (e.pidfd->0).1 == revents@[p],
                        Source::Sock => true,
                        Source::Ipc => e.state is NeedSeccompFd && e.state->ipc_in == revents@[p],
                        Source::Seccomp => e.state is NeedSeccompNotify && e.state->seccomp_in
                            == revents@[p],
                    }
                }
                &&& i < endpoints@.len() ==> {
                    let a = endpoints@[i as int];
                    let b = final(endpoints)@[i as int];
                    &&& a.port == b.port && a.cmd == b.cmd && a.sock == b.sock && a.since
                        == b.since
                    &&& a.pidfd is Some <==> b.pidfd is Some
                    &&& a.pidfd is Some ==> (a.pidfd->0).0 == (b.pidfd->0).0
                    &&& match a.state {
                        State::Stopped => b.state is Stopped,
                        State::NeedSeccompFd { ipc, .. } => b.state is NeedSeccompFd && b.state->ipc
                            == ipc,
                        State::NeedSeccompNotify { seccomp, .. } => b.state is NeedSeccompNotify
                            && b.state->seccomp == seccomp,
                        State::Started => b.state is Started,
                    }
                    &&& !(exists|k: int| #[trigger]
                        counts(revents@, cnt as int, k) && watches@[k] == (Watch {
                            index: i,
                            source: Source::Pid,
                        })) ==> a.pidfd == b.pidfd
                    &&& !(exists|k: int| #[trigger]
                        counts(revents@, cnt as int, k) && watches@[k].index == i
                            && watches@[k].source != Source::Pid) ==> a.state == b.state
                }
            },
{
    let n = revents@.len() as int;
    assert forall|k: int| #[trigger]
        fired(revents@, cnt as int, k) == counts(revents@, cnt as int, k) by {
        law_which_events_count(revents@, cnt as int, k);
    }
    assert forall|k: int| #[trigger]
        counts(revents@, cnt as int, k) == fired(revents@, cnt as int, k) by {
        law_which_events_count(revents@, cnt as int, k);
    }
    assert forall|endpoints: &mut Vec<Endpoint<F>>| #[trigger]
        call_ensures(record::<F>, (endpoints, watches, revents, cnt), indices) implies {
        &&& final(endpoints)@.len() == endpoints@.len()
        &&& indices@.contains(i) <==> exists|k: int| #[trigger]
            counts(revents@, cnt as int, k) && watches@[k].index == i
        &&& forall|j: int, k: int|
            0 <= j < k < indices@.len() ==> #[trigger] indices@[j] < #[trigger] indices@[k]
        &&& counts(revents@, cnt as int, p) ==> {
            let e = final(endpoints)@[watches@[p].index as int];
            match watches@[p].source {
                Source::Pid => e.pidfd is Some && (e.pidfd->0).1 == revents@[p],
                Source::Sock => true,
                Source::Ipc => e.state is NeedSeccompFd && e.state->ipc_in == revents@[p],
                Source::Seccomp => e.state is NeedSeccompNotify && e.state->seccomp_in
                    == revents@[p],
            }
        }
        &&& i < endpoints@.len() ==> {
            let a = endpoints@[i as int];
            let b = final(endpoints)@[i as int];
            &&& a.port == b.port && a.cmd == b.cmd && a.sock == b.sock && a.since
                == b.since
            &&& a.pidfd is Some <==> b.pidfd is Some
            &&& a.pidfd is Some ==> (a.pidfd->0).0 == (b.pidfd->0).0
            &&& match a.state {
                State::Stopped => b.state is Stopped,
                State::NeedSeccompFd { ipc, .. } => b.state is NeedSeccompFd && b.state->ipc
                    == ipc,
                State::NeedSeccompNotify { seccomp, .. } => b.state is NeedSeccompNotify
                    && b.state->seccomp == seccomp,
                State::Started => b.state is Started,
            }
            &&& !(exists|k: int| #[trigger]
                counts(revents@, cnt as int, k) && watches@[k] == (Watch {
                    index: i,
                    source: Source::Pid,
                })) ==> a.pidfd == b.pidfd
            &&& !(exists|k: int| #[trigger]
                counts(revents@, cnt as int, k) && watches@[k].index == i
                    && watches@[k].source != Source::Pid) ==> a.state == b.state
        }
    } by {
        assert(indices@.contains(i) <==> fired_at(watches@, revents@, cnt as int, n, i as int));
        if counts(revents@, cnt as int, p) {
            assert(fired(revents@, cnt as int, p));
        }
        if i < endpoints@.len() {
            let a = endpoints@[i as int];
            let b = final(endpoints)@[i as int];
            assert(same_but_flags(a, b));
            law_nothing_but_flags(a, b);
            if !(exists|k: int| #[trigger]
                counts(revents@, cnt as int, k) && watches@[k] == (Watch {
                    index: i,
                    source: Source::Pid,
                })) {
                assert(!fired_for(watches@, revents@, cnt as int, n, i as int, Source::Pid));
                assert(flags_of(b, Source::Pid) == flags_of(a, Source::Pid));
            }
            if !(exists|k: int| #[trigger]
                counts(revents@, cnt as int, k) && watches@[k].index == i && watches@[k].source
                    != Source::Pid) {
                assert(!fired_for(watches@, revents@, cnt as int, n, i as int, Source::Ipc));
                assert(!fired_for(watches@, revents@, cnt as int, n, i as int, Source::Seccomp));
                assert(flags_of(b, Source::Ipc) == flags_of(a, Source::Ipc));
                assert(flags_of(b, Source::Seccomp) == flags_of(a, Source::Seccomp));
            }
        }
    }
}

} // verus!
