//! A peer: how it routes a message, picks where the token goes next, and
//! reacts to what it receives.

use vstd::prelude::*;
use crate::message::{Delivery, Message, MessageType};
use crate::registry::{
    all_absent, count_present, lemma_clear_count, lemma_count_zero, lemma_reachable_len,
    lemma_reachable_members, lemma_shrinks_count, reachable, routed, shrinks, Registry,
};

verus! {

/// Calls `rand::random::<usize>()`, which draws from the thread's own
/// generator. Nothing is claimed of the number that comes back: any `usize`
/// may be drawn, and two calls may differ. The call panics only where the
/// operating system cannot seed that generator.
#[verifier::external_body]
fn random_index() -> (draw: usize) {
    rand::random::<usize>()
}

/// The candidate that a draw selects: the draw's remainder by the number of
/// candidates, as a position among them.
pub open spec fn pick(candidates: Seq<usize>, draw: usize) -> usize
    recommends
        candidates.len() > 0,
{
    candidates[(draw as int) % (candidates.len() as int)]
}

/// What routing a message of kind `kind` from peer `from` to peer `to` hands
/// to `to`: the message where `to` is present, nothing where it is absent.
pub open spec fn delivered(slots: Seq<bool>, from: usize, to: usize, kind: MessageType) -> Option<
    Delivery,
> {
    if slots[to as int] {
        Some(Delivery { to, message: Message { m_type: kind, sender_id: from } })
    } else {
        None
    }
}

/// The table and the delivery after peer `id` has sent a message of kind
/// `kind` onward with the draw `draw`: the message goes to the candidate
/// that the draw selects among the reachable peers other than `id`; with
/// none to reach, `id` removes itself and nothing is delivered.
pub open spec fn send_outcome(slots: Seq<bool>, id: usize, kind: MessageType, draw: usize) -> (
    Seq<bool>,
    Option<Delivery>,
) {
    let candidates = reachable(slots, id);
    if candidates.len() > 0 {
        let to = pick(candidates, draw);
        (routed(slots, to as int, kind), delivered(slots, id, to, kind))
    } else {
        (slots.update(id as int, false), None)
    }
}

/// What a peer emits in reaction to one message it received.
#[derive(Clone, Copy, Debug, PartialEq, Eq, Structural)]
pub struct Reaction {
    /// The `Pong` for the sender of a `Ping`, where that sender was present.
    pub answer: Option<Delivery>,
    /// The `Ping` forwarded to the next peer, where one could be reached.
    pub forward: Option<Delivery>,
}

/// The table and the reaction after peer `id` has received `message` and
/// drawn `draw`. A `Ping` is answered with one `Pong` to its sender, which
/// removes the sender, and is then sent onward; a `Pong` changes nothing.
pub open spec fn receive_outcome(slots: Seq<bool>, id: usize, message: Message, draw: usize) -> (
    Seq<bool>,
    Reaction,
) {
    if message.m_type == MessageType::Ping {
        let answered = routed(slots, message.sender_id as int, MessageType::Pong);
        let sent = send_outcome(answered, id, MessageType::Ping, draw);
        (
            sent.0,
            Reaction {
                answer: delivered(slots, id, message.sender_id, MessageType::Pong),
                forward: sent.1,
            },
        )
    } else {
        (slots, Reaction { answer: None, forward: None })
    }
}

/// The candidate at the position that `draw` selects.
pub fn choose_target(candidates: &Vec<usize>, draw: usize) -> (target: usize)
    requires
        candidates@.len() > 0,
    ensures
        target == pick(candidates@, draw),
        candidates@.contains(target),
{
    candidates[draw % candidates.len()]
}

/// A peer, known by its index in the registry.
#[derive(Clone, Copy, Debug)]
pub struct Server {
    id: usize,
}

impl Server {
    /// The peer's index.
    pub closed spec fn index(&self) -> usize {
        self.id
    }

    /// The peer with index `i`.
    pub fn new(i: usize) -> (server: Server)
        ensures
            server.index() == i,
    {
        Server { id: i }
    }

    /// The peer's index.
    pub fn id(&self) -> (i: usize)
        ensures
            i == self.index(),
    {
        self.id
    }

    /// Routes a message of kind `mt` from this peer to peer `to`. Returns the
    /// delivery where `to` was present and nothing where it was absent; a
    /// `Pong` removes `to` from the registry either way.
    pub fn send_internal(&self, registry: &mut Registry, to: usize, mt: MessageType) -> (out:
        Option<Delivery>)
        requires
            to < old(registry)@.len(),
        ensures
            out == delivered(old(registry)@, self.index(), to, mt),
            final(registry)@ == routed(old(registry)@, to as int, mt),
            shrinks(old(registry)@, final(registry)@),
            count_present(final(registry)@) <= count_present(old(registry)@),
    {
        if registry.route_to(to, mt) {
            Some(Delivery { to, message: Message::new(mt, self.id) })
        } else {
            None
        }
    }

    /// Sends a message of kind `mt` onward with a given draw: to the peer
    /// that the draw selects among those still reachable, or, with nobody
    /// left to reach, to nobody, removing this peer itself.
    pub fn send_with(&self, registry: &mut Registry, mt: MessageType, draw: usize) -> (out: Option<
        Delivery,
    >)
        requires
            self.index() < old(registry)@.len(),
        ensures
            (final(registry)@, out) == send_outcome(old(registry)@, self.index(), mt, draw),
            shrinks(old(registry)@, final(registry)@),
            count_present(final(registry)@) <= count_present(old(registry)@),
    {
        let remaining_servers = registry.reachable_indices(self.id);
        if remaining_servers.len() != 0 {
            let to = choose_target(&remaining_servers, draw);
            self.send_internal(registry, to, mt)
        } else {
            registry.clear(self.id);
            None
        }
    }

    /// Sends a message of kind `mt` onward to a peer drawn at random among
    /// those still reachable. Whatever is drawn, the outcome is that of
    /// `send_with` for some draw; with nobody left to reach nothing is drawn
    /// and this peer removes itself.
    pub fn send(&self, registry: &mut Registry, mt: MessageType) -> (out: Option<Delivery>)
        requires
            self.index() < old(registry)@.len(),
        ensures
            exists|draw: usize|
                (final(registry)@, out) == #[trigger] send_outcome(
                    old(registry)@,
                    self.index(),
                    mt,
                    draw,
                ),
            reachable(old(registry)@, self.index()).len() == 0 ==> out is None && final(registry)@
                == old(registry)@.update(self.index() as int, false),
            reachable(old(registry)@, self.index()).len() > 0 ==> {
                &&& out is Some
                &&& reachable(old(registry)@, self.index()).contains(out->0.to)
                &&& out->0.message == (Message { m_type: mt, sender_id: self.index() })
                &&& final(registry)@ == routed(old(registry)@, out->0.to as int, mt)
            },
            shrinks(old(registry)@, final(registry)@),
            count_present(final(registry)@) <= count_present(old(registry)@),
    {
        let remaining_servers = registry.reachable_indices(self.id);
        if remaining_servers.len() != 0 {
            let draw = random_index();
            let to = choose_target(&remaining_servers, draw);
            let out = self.send_internal(registry, to, mt);
            proof {
                assert((registry@, out) == send_outcome(old(registry)@, self.id, mt, draw));
            }
            out
        } else {
            registry.clear(self.id);
            proof {
                assert((registry@, None::<Delivery>) == send_outcome(
                    old(registry)@,
                    self.id,
                    mt,
                    0usize,
                ));
            }
            None
        }
    }

    /// Reacts to a received message with a given draw. A `Ping` is answered
    /// with exactly one `Pong` routed to its sender and is then sent onward
    /// with the draw; a `Pong` causes nothing.
    pub fn receive_with(&self, registry: &mut Registry, message: Message, draw: usize) -> (out:
        Reaction)
        requires
            self.index() < old(registry)@.len(),
            message.sender_id < old(registry)@.len(),
        ensures
            (final(registry)@, out) == receive_outcome(
                old(registry)@,
                self.index(),
                message,
                draw,
            ),
            shrinks(old(registry)@, final(registry)@),
            count_present(final(registry)@) <= count_present(old(registry)@),
    {
        if message.m_type == MessageType::Ping {
            let answer = self.send_internal(registry, message.sender_id, MessageType::Pong);
            let forward = self.send_with(registry, message.m_type, draw);
            proof {
                lemma_shrinks_count(old(registry)@, registry@);
            }
            Reaction { answer, forward }
        } else {
            Reaction { answer: None, forward: None }
        }
    }

    /// Reacts to a received message, drawing at random where the token is
    /// sent onward. Whatever is drawn, the outcome is that of `receive_with`
    /// for some draw.
    pub fn receive(&self, registry: &mut Registry, message: Message) -> (out: Reaction)
        requires
            self.index() < old(registry)@.len(),
            message.sender_id < old(registry)@.len(),
        ensures
            exists|draw: usize|
                (final(registry)@, out) == #[trigger] receive_outcome(
                    old(registry)@,
                    self.index(),
                    message,
                    draw,
                ),
            message.m_type == MessageType::Ping ==> out.answer == delivered(
                old(registry)@,
                self.index(),
                message.sender_id,
                MessageType::Pong,
            ),
            message.m_type == MessageType::Pong ==> {
                &&& final(registry)@ == old(registry)@
                &&& out == (Reaction { answer: None, forward: None })
            },
            shrinks(old(registry)@, final(registry)@),
            count_present(final(registry)@) <= count_present(old(registry)@),
    {
        if message.m_type == MessageType::Ping {
            let answer = self.send_internal(registry, message.sender_id, MessageType::Pong);
            let ghost answered = registry@;
            let forward = self.send(registry, message.m_type);
            let out = Reaction { answer, forward };
            proof {
                lemma_shrinks_count(old(registry)@, registry@);
                let draw = choose|draw: usize|
                    (registry@, forward) == #[trigger] send_outcome(
                        answered,
                        self.id,
                        MessageType::Ping,
                        draw,
                    );
                assert((registry@, out) == receive_outcome(
                    old(registry)@,
                    self.id,
                    message,
                    draw,
                ));
            }
            out
        } else {
            let out = Reaction { answer: None, forward: None };
            proof {
                assert((registry@, out) == receive_outcome(
                    old(registry)@,
                    self.id,
                    message,
                    0usize,
                ));
            }
            out
        }
    }
}

/// Once a peer is absent it stays absent, whatever is routed or cleared
/// afterwards, and nothing more is delivered to it.
pub proof fn lemma_absent_is_final(
    before: Seq<bool>,
    after: Seq<bool>,
    p: usize,
    from: usize,
    kind: MessageType,
)
    requires
        before.len() <= usize::MAX,
        p < before.len(),
        !before[p as int],
        shrinks(before, after),
    ensures
        !after[p as int],
        delivered(after, from, p, kind) is None,
        !reachable(after, from).contains(p),
{
    assert(after[p as int] ==> before[p as int]);
    lemma_reachable_members(after, from);
}

/// A peer that sends onward and finds nobody to reach removes itself: its
/// own entry is absent afterwards, every other entry is as before, and
/// nothing is delivered.
pub proof fn lemma_self_clear(slots: Seq<bool>, id: usize, kind: MessageType, draw: usize)
    requires
        id < slots.len(),
        reachable(slots, id).len() == 0,
    ensures
        send_outcome(slots, id, kind, draw).1 is None,
        send_outcome(slots, id, kind, draw).0 == slots.update(id as int, false),
        !send_outcome(slots, id, kind, draw).0[id as int],
        all_absent(send_outcome(slots, id, kind, draw).0),
{
    lemma_reachable_len(slots, id);
    lemma_clear_count(slots, id as int);
    lemma_count_zero(slots.update(id as int, false));
}

/// Every candidate has the same share of the draws: the first draws, as many
/// as there are candidates, select each candidate once, in order, and a draw
/// that is larger by the number of candidates selects the same one again.
pub proof fn lemma_pick_shares(candidates: Seq<usize>, draw: usize)
    requires
        candidates.len() > 0,
    ensures
        0 <= (draw as int) % (candidates.len() as int) < candidates.len(),
        draw < candidates.len() ==> pick(candidates, draw) == candidates[draw as int],
        draw + candidates.len() <= usize::MAX ==> pick(
            candidates,
            (draw + candidates.len()) as usize,
        ) == pick(candidates, draw),
{
    let k = candidates.len() as int;
    let d = draw as int;
    assert(0 <= d % k < k && (d < k ==> d % k == d) && (d + k) % k == d % k)
        by (nonlinear_arith)
        requires
            k > 0,
            d >= 0,
    ;
}

} // verus!
