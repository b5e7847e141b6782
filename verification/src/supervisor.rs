//! Single-endpoint supervisor: the lifecycle engine that keeps one
//! driver alive. Each reconnect round enumerates keys, tries them in
//! order until one opens, runs the driver's event loop, and starts over
//! when it ends. The loop around the outside work is driven by the
//! caller; every decision is taken here.

use vstd::prelude::*;

verus! {

/// Where the supervisor stands: about to enumerate keys, trying the key
/// under `next`, or running an open driver.
#[derive(Clone, Copy, Debug, PartialEq, Eq, Structural)]
pub enum Phase {
    Enumerating,
    Opening,
    Running,
}

/// A lifecycle event the supervisor emits to its callback. Payload
/// events flow from the driver to the callback directly and carry their
/// own data.
#[derive(Clone, Copy, Debug, PartialEq, Eq, Structural)]
pub enum Emission {
    Connected,
    ConnectFailed,
    Disconnected,
}

/// The supervisor's state: its phase, the keys of the present round and
/// the index of the key being tried.
pub struct Supervisor<K> {
    pub phase: Phase,
    pub keys: Vec<K>,
    pub next: usize,
}

/// The lifecycle emission that ends a round of open attempts started at
/// key `next`, where `os[k]` tells whether key `k` opens: `Connected` at
/// the first success, `ConnectFailed` when every remaining key fails.
pub open spec fn round_outcome(os: Seq<bool>, next: int) -> Emission
    recommends
        0 <= next <= os.len(),
    decreases os.len() - next,
{
    if next < 0 || next >= os.len() {
        Emission::ConnectFailed
    } else if os[next] {
        Emission::Connected
    } else {
        round_outcome(os, next + 1)
    }
}

impl<K> Supervisor<K> {
    /// The key index is in range while a key is being tried.
    pub open spec fn wf(&self) -> bool {
        self.phase == Phase::Opening ==> self.next < self.keys@.len()
    }

    /// A fresh supervisor, about to enumerate keys.
    pub fn new() -> (s: Self)
        ensures
            s.wf(),
            s.phase == Phase::Enumerating,
    {
        Supervisor { phase: Phase::Enumerating, keys: Vec::new(), next: 0 }
    }

    /// Take the keys of a new round. An empty round fails at once:
    /// the caller emits `ConnectFailed`, sleeps its retry interval and
    /// enumerates again.
    pub fn on_keys(&mut self, keys: Vec<K>) -> (emit: Option<Emission>)
        requires
            old(self).wf(),
            old(self).phase == Phase::Enumerating,
        ensures
            final(self).wf(),
            keys@.len() == 0 ==> {
                &&& emit == Some(Emission::ConnectFailed)
                &&& final(self).phase == Phase::Enumerating
            },
            keys@.len() > 0 ==> {
                &&& emit is None
                &&& final(self).phase == Phase::Opening
                &&& final(self).keys@ == keys@
                &&& final(self).next == 0
            },
    {
        if keys.len() == 0 {
            Some(Emission::ConnectFailed)
        } else {
            self.keys = keys;
            self.next = 0;
            self.phase = Phase::Opening;
            None
        }
    }

    /// The key the caller must try to open now.
    pub fn current_key(&self) -> (k: &K)
        requires
            self.wf(),
            self.phase == Phase::Opening,
        ensures
            k == self.keys@[self.next as int],
    {
        &self.keys[self.next]
    }

    /// Take the outcome of one open attempt: success connects, failure
    /// moves to the next key, and an exhausted list ends the round with
    /// `ConnectFailed`. Each step is one unfolding of `round_outcome`.
    pub fn on_open_result(&mut self, ok: bool) -> (emit: Option<Emission>)
        requires
            old(self).wf(),
            old(self).phase == Phase::Opening,
        ensures
            final(self).wf(),
            final(self).keys@ == old(self).keys@,
            ok ==> {
                &&& emit == Some(Emission::Connected)
                &&& final(self).phase == Phase::Running
                &&& final(self).next == old(self).next
            },
            !ok && old(self).next + 1 < old(self).keys@.len() ==> {
                &&& emit is None
                &&& final(self).phase == Phase::Opening
                &&& final(self).next == old(self).next + 1
            },
            !ok && old(self).next + 1 >= old(self).keys@.len() ==> {
                &&& emit == Some(Emission::ConnectFailed)
                &&& final(self).phase == Phase::Enumerating
            },
    {
        if ok {
            self.phase = Phase::Running;
            Some(Emission::Connected)
        } else if self.next < self.keys.len() - 1 {
            self.next = self.next + 1;
            None
        } else {
            self.phase = Phase::Enumerating;
            self.next = 0;
            Some(Emission::ConnectFailed)
        }
    }

    /// Take the end of the driver's event loop, clean or not: either way
    /// the endpoint is gone, `Disconnected` is emitted, and the next
    /// round begins with fresh keys.
    pub fn on_join_end(&mut self, _clean: bool) -> (emit: Option<Emission>)
        requires
            old(self).wf(),
            old(self).phase == Phase::Running,
        ensures
            final(self).wf(),
            emit == Some(Emission::Disconnected),
            final(self).phase == Phase::Enumerating,
    {
        self.phase = Phase::Enumerating;
        self.next = 0;
        Some(Emission::Disconnected)
    }
}

/// Supervisor progress: when some key of the round opens, the round ends
/// with `Connected` — the supervisor never starves while a working key
/// is in its list. `os[k]` tells whether opening key `k` succeeds, and
/// `round_outcome` is the emission that driving `on_open_result` with
/// those outcomes produces.
pub proof fn lemma_supervisor_progress(os: Seq<bool>, next: int)
    requires
        0 <= next <= os.len(),
        exists|j: int| next <= j < os.len() && os[j],
    ensures
        round_outcome(os, next) == Emission::Connected,
    decreases os.len() - next,
{
    let j = choose|j: int| next <= j < os.len() && os[j];
    if !os[next] {
        assert(next + 1 <= j < os.len() && os[j]);
        lemma_supervisor_progress(os, next + 1);
    }
}

/// A round with no working key ends with `ConnectFailed`: the exact
/// converse of progress.
pub proof fn lemma_supervisor_exhaustion(os: Seq<bool>, next: int)
    requires
        0 <= next <= os.len(),
        forall|j: int| next <= j < os.len() ==> !os[j],
    ensures
        round_outcome(os, next) == Emission::ConnectFailed,
    decreases os.len() - next,
{
    if next < os.len() {
        lemma_supervisor_exhaustion(os, next + 1);
    }
}

} // verus!
