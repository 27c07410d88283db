//! The whole relay run as a sequence of receipts: the token is injected at a
//! starting peer and handed on, one receipt at a time, until the last holder
//! finds nobody left and the registry is empty.

use vstd::prelude::*;
use crate::message::{Delivery, Message, MessageType};
use crate::registry::{
    all_absent, count_present, lemma_all_absent_count, lemma_clear_count, lemma_count_zero,
    lemma_reachable_len, lemma_reachable_members, lemma_shrinks_count, reachable, shrinks,
    Registry,
};
use crate::server::{lemma_pick_shares, receive_outcome, send_outcome, Reaction, Server};

verus! {

/// The `Ping` that peer `from` forwards to peer `to`.
pub open spec fn ping(from: usize, to: usize) -> Delivery {
    Delivery { to, message: Message { m_type: MessageType::Ping, sender_id: from } }
}

/// The `Pong` with which peer `from` answers peer `to`.
pub open spec fn pong(from: usize, to: usize) -> Delivery {
    Delivery { to, message: Message { m_type: MessageType::Pong, sender_id: from } }
}

/// The receipts that a chain of holders leaves behind: for each hand-over
/// the `Ping` that the next holder received, then the `Pong` with which it
/// answered the holder before it.
pub open spec fn trace(visited: Seq<usize>) -> Seq<Delivery>
    decreases visited.len(),
{
    if visited.len() <= 1 {
        Seq::empty()
    } else {
        let from = visited[visited.len() - 2];
        let to = visited.last();
        trace(visited.drop_last()).push(ping(from, to)).push(pong(to, from))
    }
}

/// A run at one moment, as plain values.
pub struct SimulationView {
    /// The registry: which peers are present.
    pub slots: Seq<bool>,
    /// The `Ping` that is under way, if the run has not ended.
    pub pending: Option<Delivery>,
    /// The peers that have held the token, in order; the last one holds it.
    pub visited: Seq<usize>,
    /// Every message received so far, in order.
    pub log: Seq<Delivery>,
}

impl SimulationView {
    /// The peer that holds the token.
    pub open spec fn holder(self) -> usize {
        self.visited.last()
    }

    /// What holds of a run at every moment: no peer holds the token twice,
    /// every earlier holder has been removed, the receipts are those of the
    /// chain of holders, the `Ping` under way goes from the holder to a peer
    /// that is present, and a run that has ended has visited every peer and
    /// left the registry empty.
    pub open spec fn wf(self) -> bool {
        let n = self.slots.len();
        &&& n <= usize::MAX
        &&& 1 <= self.visited.len() <= n
        &&& forall|k: int| 0 <= k < self.visited.len() ==> #[trigger] self.visited[k] < n
        &&& forall|j: int, k: int|
            0 <= j < k < self.visited.len() ==> self.visited[j] != self.visited[k]
        &&& forall|k: int|
            0 <= k < self.visited.len() - 1 ==> !self.slots[#[trigger] self.visited[k] as int]
        &&& self.log == trace(self.visited)
        &&& match self.pending {
            Some(d) => {
                &&& d == ping(self.holder(), d.to)
                &&& d.to < n
                &&& d.to != self.holder()
                &&& self.slots[d.to as int]
                &&& self.slots[self.holder() as int]
                &&& count_present(self.slots) + self.visited.len() == n + 1
            },
            None => all_absent(self.slots) && self.visited.len() == n,
        }
    }
}

/// The run right after the token was injected at peer `start` of `n` peers,
/// all present, with the draw `draw`.
pub open spec fn started(n: usize, start: usize, draw: usize) -> SimulationView {
    let sent = send_outcome(Seq::new(n as nat, |i: int| true), start, MessageType::Ping, draw);
    SimulationView { slots: sent.0, pending: sent.1, visited: seq![start], log: Seq::empty() }
}

/// The run after a reaction to the receipt `received` was taken in.
pub open spec fn recorded(
    s: SimulationView,
    slots: Seq<bool>,
    received: Delivery,
    reaction: Reaction,
) -> SimulationView {
    SimulationView {
        slots,
        pending: reaction.forward,
        visited: s.visited.push(received.to),
        log: match reaction.answer {
            Some(answer) => s.log.push(received).push(answer),
            None => s.log.push(received),
        },
    }
}

/// The run after the `Ping` under way was received and its receiver reacted
/// with the draw `draw`. A run that has ended stays as it is.
pub open spec fn stepped(s: SimulationView, draw: usize) -> SimulationView {
    match s.pending {
        Some(received) => {
            let outcome = receive_outcome(s.slots, received.to, received.message, draw);
            recorded(s, outcome.0, received, outcome.1)
        },
        None => s,
    }
}

/// A run of the relay.
pub struct Simulation {
    registry: Registry,
    pending: Option<Delivery>,
    visited: Vec<usize>,
    log: Vec<Delivery>,
}

impl View for Simulation {
    type V = SimulationView;

    closed spec fn view(&self) -> SimulationView {
        SimulationView {
            slots: self.registry@,
            pending: self.pending,
            visited: self.visited@,
            log: self.log@,
        }
    }
}

impl Simulation {
    /// The run in which peer `start` holds the token and `pending` is what
    /// it sent.
    fn inject(registry: Registry, start: usize, pending: Option<Delivery>) -> (sim: Simulation)
        ensures
            sim@ == (SimulationView {
                slots: registry@,
                pending,
                visited: seq![start],
                log: Seq::empty(),
            }),
    {
        let mut visited: Vec<usize> = Vec::new();
        visited.push(start);
        let sim = Simulation { registry, pending, visited, log: Vec::new() };
        proof {
            assert(sim.visited@ =~= seq![start]);
        }
        sim
    }

    /// Builds `n` peers, all present, and injects the token at peer `start`
    /// with a given draw.
    pub fn start_with(n: usize, start: usize, draw: usize) -> (sim: Simulation)
        requires
            start < n,
        ensures
            sim@ == started(n, start, draw),
            sim@.wf(),
    {
        let mut registry = Registry::with_peers(n);
        let pending = Server::new(start).send_with(&mut registry, MessageType::Ping, draw);
        proof {
            lemma_started_wf(n, start, draw);
        }
        Simulation::inject(registry, start, pending)
    }

    /// Builds `n` peers, all present, and injects the token at peer `start`,
    /// which sends it to a peer drawn at random.
    pub fn start(n: usize, start: usize) -> (sim: Simulation)
        requires
            start < n,
        ensures
            exists|draw: usize| sim@ == #[trigger] started(n, start, draw),
            sim@.wf(),
    {
        let mut registry = Registry::with_peers(n);
        let ghost before = registry@;
        let pending = Server::new(start).send(&mut registry, MessageType::Ping);
        let sim = Simulation::inject(registry, start, pending);
        proof {
            let draw = choose|draw: usize|
                (registry@, pending) == #[trigger] send_outcome(
                    before,
                    start,
                    MessageType::Ping,
                    draw,
                );
            lemma_started_wf(n, start, draw);
            assert(sim@ == started(n, start, draw));
        }
        sim
    }

    /// Whether the run has ended: no `Ping` is under way.
    pub fn is_finished(&self) -> (finished: bool)
        ensures
            finished == (self@.pending is None),
    {
        self.pending.is_none()
    }

    /// The registry as the run has left it.
    pub fn registry(&self) -> (registry: &Registry)
        ensures
            registry@ == self@.slots,
    {
        &self.registry
    }

    /// The `Ping` under way, if any.
    pub fn pending(&self) -> (pending: Option<Delivery>)
        ensures
            pending == self@.pending,
    {
        self.pending
    }

    /// The peers that have held the token, in order.
    pub fn visited(&self) -> (visited: &Vec<usize>)
        ensures
            visited@ == self@.visited,
    {
        &self.visited
    }

    /// Every message received so far, in order.
    pub fn log(&self) -> (log: &Vec<Delivery>)
        ensures
            log@ == self@.log,
    {
        &self.log
    }

    /// Takes in what the receiver of `received` emitted: the receipt and the
    /// answer go to the log, the receiver becomes the holder, and what it
    /// forwarded is under way.
    fn record(&mut self, received: Delivery, reaction: Reaction)
        ensures
            final(self)@ == recorded(old(self)@, old(self)@.slots, received, reaction),
    {
        self.log.push(received);
        if let Some(answer) = reaction.answer {
            self.log.push(answer);
        }
        self.visited.push(received.to);
        self.pending = reaction.forward;
    }

    /// Lets the `Ping` under way arrive: its receiver answers the holder,
    /// becomes the holder, and sends the token onward with the draw `draw`.
    /// Each such step removes at least one peer. On a run that has ended
    /// nothing happens.
    pub fn step_with(&mut self, draw: usize)
        requires
            old(self)@.wf(),
        ensures
            final(self)@ == stepped(old(self)@, draw),
            final(self)@.wf(),
            shrinks(old(self)@.slots, final(self)@.slots),
            count_present(final(self)@.slots) <= count_present(old(self)@.slots),
            old(self)@.pending is Some ==> count_present(final(self)@.slots) < count_present(
                old(self)@.slots,
            ),
    {
        proof {
            lemma_stepped_wf(self@, draw);
        }
        if let Some(received) = self.pending {
            let reaction = Server::new(received.to).receive_with(
                &mut self.registry,
                received.message,
                draw,
            );
            self.record(received, reaction);
        }
    }

    /// Lets the `Ping` under way arrive, its receiver drawing at random where
    /// the token goes next. Whatever is drawn, the run is then what
    /// `step_with` gives for some draw.
    pub fn step(&mut self)
        requires
            old(self)@.wf(),
        ensures
            exists|draw: usize| final(self)@ == #[trigger] stepped(old(self)@, draw),
            final(self)@.wf(),
            shrinks(old(self)@.slots, final(self)@.slots),
            count_present(final(self)@.slots) <= count_present(old(self)@.slots),
            old(self)@.pending is Some ==> count_present(final(self)@.slots) < count_present(
                old(self)@.slots,
            ),
    {
        if let Some(received) = self.pending {
            let reaction = Server::new(received.to).receive(&mut self.registry, received.message);
            let ghost slots = self.registry@;
            self.record(received, reaction);
            proof {
                let draw = choose|draw: usize|
                    (slots, reaction) == #[trigger] receive_outcome(
                        old(self)@.slots,
                        received.to,
                        received.message,
                        draw,
                    );
                lemma_stepped_wf(old(self)@, draw);
                assert(self@ == stepped(old(self)@, draw));
            }
        } else {
            proof {
                lemma_stepped_wf(self@, 0usize);
                assert(self@ == stepped(old(self)@, 0usize));
            }
        }
    }

    /// Runs the relay among `n` peers from peer `start` to its end. Whatever
    /// is drawn on the way, the run ends, with every peer removed from the
    /// registry and every peer having held the token exactly once, `start`
    /// first.
    pub fn run(n: usize, start: usize) -> (sim: Simulation)
        requires
            start < n,
        ensures
            sim@.wf(),
            sim@.pending is None,
            sim@.slots.len() == n,
            all_absent(sim@.slots),
            sim@.visited.len() == n,
            sim@.visited[0] == start,
            sim@.log.len() == 2 * (n - 1),
    {
        let mut sim = Simulation::start(n, start);
        while !sim.is_finished()
            invariant
                sim@.wf(),
                sim@.slots.len() == n,
                sim@.visited[0] == start,
            decreases count_present(sim@.slots),
        {
            sim.step();
        }
        proof {
            lemma_trace_len(sim@.visited);
        }
        sim
    }
}

/// Each hand-over leaves two receipts.
pub proof fn lemma_trace_len(visited: Seq<usize>)
    requires
        visited.len() >= 1,
    ensures
        trace(visited).len() == 2 * (visited.len() - 1),
    decreases visited.len(),
{
    if visited.len() > 1 {
        lemma_trace_len(visited.drop_last());
    }
}

/// What the receipts of a chain of holders are, hand-over by hand-over: the
/// `Ping` number `k` goes from holder `k` to holder `k + 1`, so every `Ping`
/// but the first is sent by the receiver of the one before it; and it is
/// followed at once by the one `Pong` that answers it, addressed to its
/// sender.
pub proof fn lemma_trace_entries(visited: Seq<usize>, k: int)
    requires
        0 <= k < visited.len() - 1,
    ensures
        trace(visited).len() == 2 * (visited.len() - 1),
        trace(visited)[2 * k] == ping(visited[k], visited[k + 1]),
        trace(visited)[2 * k + 1] == pong(visited[k + 1], visited[k]),
    decreases visited.len(),
{
    lemma_trace_len(visited);
    lemma_trace_len(visited.drop_last());
    if k < visited.len() - 2 {
        lemma_trace_entries(visited.drop_last(), k);
    }
}

/// The run after one step for each draw in `draws`, in order.
pub open spec fn advanced(s: SimulationView, draws: Seq<usize>) -> SimulationView
    decreases draws.len(),
{
    if draws.len() == 0 {
        s
    } else {
        advanced(stepped(s, draws[0]), draws.drop_first())
    }
}

/// While a `Ping` is under way, its sender and its receiver are both
/// present.
pub proof fn lemma_pending_needs_two(s: SimulationView)
    requires
        s.wf(),
        s.pending is Some,
    ensures
        count_present(s.slots) >= 2,
{
    let answered = s.slots.update(s.holder() as int, false);
    lemma_clear_count(s.slots, s.holder() as int);
    lemma_clear_count(answered, (s.pending->0).to as int);
}

/// A well-formed run ends, whatever is drawn: with one draw fewer than
/// there are present peers, no `Ping` is under way any more and the
/// registry is empty.
pub proof fn lemma_advanced_ends(s: SimulationView, draws: Seq<usize>)
    requires
        s.wf(),
        draws.len() + 1 >= count_present(s.slots),
    ensures
        advanced(s, draws).wf(),
        advanced(s, draws).pending is None,
        all_absent(advanced(s, draws).slots),
        shrinks(s.slots, advanced(s, draws).slots),
    decreases draws.len(),
{
    if draws.len() > 0 {
        lemma_stepped_wf(s, draws[0]);
        if s.pending is Some {
            lemma_pending_needs_two(s);
        } else {
            lemma_all_absent_count(s.slots);
        }
        lemma_advanced_ends(stepped(s, draws[0]), draws.drop_first());
        lemma_shrinks_chain(s.slots, stepped(s, draws[0]).slots, advanced(s, draws).slots);
    } else if s.pending is Some {
        lemma_pending_needs_two(s);
    }
}

/// Shrinking goes on: what has shrunk twice has shrunk.
pub proof fn lemma_shrinks_chain(first: Seq<bool>, second: Seq<bool>, third: Seq<bool>)
    requires
        shrinks(first, second),
        shrinks(second, third),
    ensures
        shrinks(first, third),
{
    assert forall|i: int| 0 <= i < third.len() && #[trigger] third[i] implies first[i] by {
        assert(second[i]);
    }
}

/// Every run ends: among `n` peers, from any starting peer and whatever is
/// drawn, the run is over after at most `n - 1` receipts of a `Ping`, with
/// every peer removed and each having held the token once.
pub proof fn lemma_run_ends(n: usize, start: usize, first: usize, draws: Seq<usize>)
    requires
        start < n,
        draws.len() >= n - 1,
    ensures
        advanced(started(n, start, first), draws).wf(),
        advanced(started(n, start, first), draws).pending is None,
        all_absent(advanced(started(n, start, first), draws).slots),
        advanced(started(n, start, first), draws).visited.len() == n,
{
    let s = started(n, start, first);
    lemma_started_wf(n, start, first);
    lemma_all_present_count(n as nat);
    lemma_shrinks_started(n, start, first);
    lemma_shrinks_count(Seq::new(n as nat, |i: int| true), s.slots);
    lemma_advanced_ends(s, draws);
}

/// Injecting the token brings no peer into the registry.
pub proof fn lemma_shrinks_started(n: usize, start: usize, first: usize)
    requires
        start < n,
    ensures
        shrinks(Seq::new(n as nat, |i: int| true), started(n, start, first).slots),
{
}

/// A run is well formed right after the token was injected.
pub proof fn lemma_started_wf(n: usize, start: usize, draw: usize)
    requires
        start < n,
    ensures
        started(n, start, draw).wf(),
{
    let slots = Seq::new(n as nat, |i: int| true);
    let s = started(n, start, draw);
    lemma_all_present_count(n as nat);
    lemma_reachable_members(slots, start);
    lemma_reachable_len(slots, start);
    let candidates = reachable(slots, start);
    if candidates.len() > 0 {
        lemma_pick_shares(candidates, draw);
        assert(s.visited.len() == 1);
    } else {
        lemma_clear_count(slots, start as int);
        lemma_count_zero(slots.update(start as int, false));
    }
}

/// A table in which all of `n` entries are present has `n` present entries.
pub proof fn lemma_all_present_count(n: nat)
    ensures
        count_present(Seq::new(n, |i: int| true)) == n,
    decreases n,
{
    if n > 0 {
        lemma_all_present_count((n - 1) as nat);
        assert(Seq::new(n, |i: int| true).drop_last() =~= Seq::new((n - 1) as nat, |i: int| true));
    }
}

/// A step keeps a run well formed and brings no removed peer back; while a
/// `Ping` is under way it removes at least one peer, so a run ends after at
/// most as many steps as there are peers.
pub proof fn lemma_stepped_wf(s: SimulationView, draw: usize)
    requires
        s.wf(),
    ensures
        stepped(s, draw).wf(),
        shrinks(s.slots, stepped(s, draw).slots),
        count_present(stepped(s, draw).slots) <= count_present(s.slots),
        s.pending is Some ==> count_present(stepped(s, draw).slots) < count_present(s.slots),
{
    if s.pending is Some {
        lemma_pending_stepped(s, draw);
    }
}

proof fn lemma_pending_stepped(s: SimulationView, draw: usize)
    requires
        s.wf(),
        s.pending is Some,
    ensures
        stepped(s, draw).wf(),
        shrinks(s.slots, stepped(s, draw).slots),
        count_present(stepped(s, draw).slots) < count_present(s.slots),
{
    let d = s.pending->0;
    let h = s.holder();
    let r = d.to;
    let t = stepped(s, draw);
    let answered = s.slots.update(h as int, false);
    let candidates = reachable(answered, r);
    lemma_clear_count(s.slots, h as int);
    lemma_clear_count(answered, r as int);
    lemma_reachable_members(answered, r);
    lemma_reachable_len(answered, r);
    assert(t.visited.drop_last() =~= s.visited);
    assert(t.log == trace(t.visited));
    if candidates.len() > 0 {
        lemma_pick_shares(candidates, draw);
        assert(t.slots == answered);
    } else {
        assert(t.slots == answered.update(r as int, false));
        lemma_count_zero(t.slots);
    }
    assert forall|j: int, k: int| 0 <= j < k < t.visited.len() implies t.visited[j]
        != t.visited[k] by {
        if k == s.visited.len() {
            if j < s.visited.len() - 1 {
                assert(!s.slots[s.visited[j] as int]);
            }
        }
    }
    assert forall|k: int| 0 <= k < t.visited.len() - 1 implies !t.slots[#[trigger] t.visited[k]
        as int] by {
        if k < s.visited.len() - 1 {
            assert(!s.slots[s.visited[k] as int]);
        }
    }
}

} // verus!
