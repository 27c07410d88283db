//! The shared table that says which peers can still be reached.

use vstd::prelude::*;
use crate::message::MessageType;

verus! {

/// How many entries of `slots` are present.
pub open spec fn count_present(slots: Seq<bool>) -> nat
    decreases slots.len(),
{
    if slots.len() == 0 {
        0
    } else {
        count_present(slots.drop_last()) + if slots.last() { 1nat } else { 0nat }
    }
}

/// The indices of the present entries of `slots` other than `excluding`, in
/// rising order.
pub open spec fn reachable(slots: Seq<bool>, excluding: usize) -> Seq<usize>
    decreases slots.len(),
{
    if slots.len() == 0 {
        Seq::empty()
    } else {
        let rest = reachable(slots.drop_last(), excluding);
        let i = slots.len() - 1;
        if slots.last() && i != excluding {
            rest.push(i as usize)
        } else {
            rest
        }
    }
}

/// The table after a message of kind `kind` was routed to entry `to`: a
/// `Pong` removes the entry, a `Ping` leaves the table as it was.
pub open spec fn routed(slots: Seq<bool>, to: int, kind: MessageType) -> Seq<bool> {
    if kind == MessageType::Pong {
        slots.update(to, false)
    } else {
        slots
    }
}

/// `after` has the length of `before` and no entry that `before` lacks.
pub open spec fn shrinks(before: Seq<bool>, after: Seq<bool>) -> bool {
    &&& after.len() == before.len()
    &&& forall|i: int| 0 <= i < after.len() && #[trigger] after[i] ==> before[i]
}

/// Every entry of `slots` is absent.
pub open spec fn all_absent(slots: Seq<bool>) -> bool {
    forall|i: int| 0 <= i < slots.len() ==> !#[trigger] slots[i]
}

/// The registry: one entry per peer, present while the peer can be reached.
pub struct Registry {
    slots: Vec<bool>,
}

impl View for Registry {
    type V = Seq<bool>;

    closed spec fn view(&self) -> Seq<bool> {
        self.slots@
    }
}

impl Registry {
    /// A registry without entries.
    pub fn new() -> (registry: Registry)
        ensures
            registry@ == Seq::<bool>::empty(),
    {
        Registry { slots: Vec::new() }
    }

    /// Adds a present entry for the next peer and returns that peer's index.
    pub fn register(&mut self) -> (index: usize)
        ensures
            index == old(self)@.len(),
            final(self)@ == old(self)@.push(true),
    {
        let index: usize = self.slots.len();
        self.slots.push(true);
        index
    }

    /// A registry in which peers `0` to `n - 1` are all present.
    pub fn with_peers(n: usize) -> (registry: Registry)
        ensures
            registry@ == Seq::new(n as nat, |i: int| true),
            count_present(registry@) == n,
    {
        let mut registry = Registry::new();
        let mut i: usize = 0;
        proof {
            assert(registry@ =~= Seq::new(0, |i: int| true));
        }
        while i < n
            invariant
                i <= n,
                registry@ == Seq::new(i as nat, |k: int| true),
                count_present(registry@) == i,
            decreases n - i,
        {
            let ghost before = registry@;
            registry.register();
            i = i + 1;
            proof {
                assert(registry@.drop_last() =~= before);
                assert(registry@ =~= Seq::new(i as nat, |k: int| true));
            }
        }
        registry
    }

    /// The number of entries, present or absent.
    pub fn len(&self) -> (n: usize)
        ensures
            n == self@.len(),
    {
        self.slots.len()
    }

    /// Whether peer `i` can still be reached.
    pub fn is_present(&self, i: usize) -> (present: bool)
        requires
            i < self@.len(),
        ensures
            present == self@[i as int],
    {
        self.slots[i]
    }

    /// Removes peer `i` from the registry, for good.
    pub fn clear(&mut self, i: usize)
        requires
            i < old(self)@.len(),
        ensures
            final(self)@ == old(self)@.update(i as int, false),
            shrinks(old(self)@, final(self)@),
            count_present(final(self)@) <= count_present(old(self)@),
    {
        proof {
            lemma_update_shrinks(self@, i as int);
            lemma_shrinks_count(self@, self@.update(i as int, false));
        }
        self.slots.set(i, false);
    }

    /// Routes a message of kind `kind` to peer `i`. The message is delivered
    /// if and only if the peer is present, which the result reports; a `Pong`
    /// removes the peer in the same step, delivered or not.
    pub fn route_to(&mut self, i: usize, kind: MessageType) -> (delivered: bool)
        requires
            i < old(self)@.len(),
        ensures
            delivered == old(self)@[i as int],
            final(self)@ == routed(old(self)@, i as int, kind),
            shrinks(old(self)@, final(self)@),
            count_present(final(self)@) <= count_present(old(self)@),
    {
        let delivered = self.slots[i];
        if kind == MessageType::Pong {
            self.clear(i);
        }
        delivered
    }

    /// The peers other than `excluding` that can still be reached, in rising
    /// order.
    pub fn reachable_indices(&self, excluding: usize) -> (indices: Vec<usize>)
        ensures
            indices@ == reachable(self@, excluding),
            forall|k: int|
                0 <= k < indices@.len() ==> {
                    let p = #[trigger] indices@[k];
                    p < self@.len() && self@[p as int] && p != excluding
                },
    {
        let mut indices: Vec<usize> = Vec::new();
        let mut i: usize = 0;
        proof {
            assert(self@.take(0) =~= Seq::<bool>::empty());
        }
        while i < self.slots.len()
            invariant
                i <= self.slots@.len(),
                indices@ == reachable(self@.take(i as int), excluding),
            decreases self.slots@.len() - i,
        {
            proof {
                assert(self@.take(i + 1).drop_last() =~= self@.take(i as int));
            }
            if self.slots[i] && i != excluding {
                indices.push(i);
            }
            i = i + 1;
        }
        proof {
            assert(self@.take(i as int) =~= self@);
            lemma_reachable_members(self@, excluding);
        }
        indices
    }

    /// The number of peers that can still be reached.
    pub fn present_count(&self) -> (count: usize)
        ensures
            count == count_present(self@),
    {
        let mut count: usize = 0;
        let mut i: usize = 0;
        proof {
            assert(self@.take(0) =~= Seq::<bool>::empty());
        }
        while i < self.slots.len()
            invariant
                i <= self.slots@.len(),
                count <= i,
                count == count_present(self@.take(i as int)),
            decreases self.slots@.len() - i,
        {
            proof {
                assert(self@.take(i + 1).drop_last() =~= self@.take(i as int));
            }
            if self.slots[i] {
                count = count + 1;
            }
            i = i + 1;
        }
        proof {
            assert(self@.take(i as int) =~= self@);
        }
        count
    }
}

/// Removing an entry yields a table that has shrunk.
pub proof fn lemma_update_shrinks(slots: Seq<bool>, i: int)
    requires
        0 <= i < slots.len(),
    ensures
        shrinks(slots, slots.update(i, false)),
{
}

/// The number of present entries never grows: a table that has shrunk holds
/// at most as many present entries as before.
pub proof fn lemma_shrinks_count(before: Seq<bool>, after: Seq<bool>)
    requires
        shrinks(before, after),
    ensures
        count_present(after) <= count_present(before),
    decreases before.len(),
{
    if before.len() > 0 {
        assert(after.last() ==> before.last());
        lemma_shrinks_count(before.drop_last(), after.drop_last());
    }
}

/// Removing a present entry lowers the number of present entries by one;
/// removing an absent one changes nothing.
pub proof fn lemma_clear_count(slots: Seq<bool>, i: int)
    requires
        0 <= i < slots.len(),
    ensures
        count_present(slots.update(i, false)) + (if slots[i] { 1nat } else { 0nat })
            == count_present(slots),
    decreases slots.len(),
{
    let after = slots.update(i, false);
    if i == slots.len() - 1 {
        assert(after.drop_last() =~= slots.drop_last());
    } else {
        lemma_clear_count(slots.drop_last(), i);
        assert(after.drop_last() =~= slots.drop_last().update(i, false));
    }
}

/// A table with every entry absent has no present entry.
pub proof fn lemma_all_absent_count(slots: Seq<bool>)
    requires
        all_absent(slots),
    ensures
        count_present(slots) == 0,
    decreases slots.len(),
{
    if slots.len() > 0 {
        assert(!slots[slots.len() - 1]);
        assert forall|i: int| 0 <= i < slots.len() - 1 implies !#[trigger] slots.drop_last()[i] by {
            assert(!slots[i]);
        }
        lemma_all_absent_count(slots.drop_last());
    }
}

/// A table without a present entry has every entry absent.
pub proof fn lemma_count_zero(slots: Seq<bool>)
    requires
        count_present(slots) == 0,
    ensures
        all_absent(slots),
    decreases slots.len(),
{
    if slots.len() > 0 {
        lemma_count_zero(slots.drop_last());
        assert forall|i: int| 0 <= i < slots.len() implies !#[trigger] slots[i] by {
            if i < slots.len() - 1 {
                assert(slots.drop_last()[i] == slots[i]);
            }
        }
    }
}

/// What `reachable` holds: exactly the present indices other than the
/// excluded one, each once and in rising order.
pub proof fn lemma_reachable_members(slots: Seq<bool>, excluding: usize)
    requires
        slots.len() <= usize::MAX,
    ensures
        forall|k: int|
            0 <= k < reachable(slots, excluding).len() ==> {
                let p = #[trigger] reachable(slots, excluding)[k];
                p < slots.len() && slots[p as int] && p != excluding
            },
        forall|p: int|
            0 <= p < slots.len() && slots[p] && p != excluding ==> reachable(
                slots,
                excluding,
            ).contains(p as usize),
        forall|j: int, k: int|
            0 <= j < k < reachable(slots, excluding).len() ==> reachable(slots, excluding)[j]
                < reachable(slots, excluding)[k],
    decreases slots.len(),
{
    if slots.len() > 0 {
        let rest = reachable(slots.drop_last(), excluding);
        let all = reachable(slots, excluding);
        lemma_reachable_members(slots.drop_last(), excluding);
        assert forall|p: int| 0 <= p < slots.len() && slots[p] && p != excluding implies all.contains(
            p as usize,
        ) by {
            if p < slots.len() - 1 {
                assert(slots.drop_last()[p]);
                assert(rest.contains(p as usize));
                let k = choose|k: int| 0 <= k < rest.len() && rest[k] == p as usize;
                assert(all[k] == p as usize);
            } else {
                assert(all[all.len() - 1] == p as usize);
            }
        }
    }
}

/// The reachable peers are the present ones, less the excluded peer where it
/// is present itself.
pub proof fn lemma_reachable_len(slots: Seq<bool>, excluding: usize)
    ensures
        reachable(slots, excluding).len() + (if excluding < slots.len() && slots[excluding as int] {
            1nat
        } else {
            0nat
        }) == count_present(slots),
    decreases slots.len(),
{
    if slots.len() > 0 {
        lemma_reachable_len(slots.drop_last(), excluding);
    }
}

} // verus!
