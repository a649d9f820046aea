//! Per-channel health registry: a liveness flag and a bounded, oldest-first
//! latency history for every named outbound channel. Probing itself is I/O
//! and lives outside; this module owns the state and how probe outcomes fold
//! into it.
use vstd::prelude::*;

verus! {

/// The rolling-window bound on a channel's delay history.
pub const HISTORY_WINDOW: usize = 10;

/// One probe outcome as recorded: when it settled, the first measured
/// latency, and the steady-state estimate (both zero for a failed probe).
#[derive(Clone, Copy, PartialEq, Eq, Structural, Debug)]
pub struct DelayHistory {
    pub time: u64,
    pub delay: u16,
    pub mean_delay: u16,
}

/// Per-channel record: liveness and the bounded latency history.
pub struct ProxyState {
    pub alive: bool,
    pub delay_history: Vec<DelayHistory>,
}

/// What a channel record says, as plain values.
pub ghost struct ProxyStateView {
    pub alive: bool,
    pub history: Seq<DelayHistory>,
}

/// The health registry: a map from channel name to record, stored as entries
/// with first-match lookup. Lazily populated: a channel exists from its
/// first report on and is never removed.
pub struct ProxyManager {
    pub entries: Vec<(String, ProxyState)>,
}

/// The record built from one probe outcome at `time`: the measured pair on
/// success, zeros on failure.
pub open spec fn record_of(time: u64, outcome: Option<(u16, u16)>) -> DelayHistory {
    match outcome {
        Some(d) => DelayHistory { time: time, delay: d.0, mean_delay: d.1 },
        None => DelayHistory { time: time, delay: 0, mean_delay: 0 },
    }
}

/// A history after appending one record: the oldest entry is evicted once
/// the window bound is passed.
pub open spec fn rolled(h: Seq<DelayHistory>, r: DelayHistory) -> Seq<DelayHistory> {
    let h2 = h.push(r);
    if h2.len() > HISTORY_WINDOW {
        h2.drop_first()
    } else {
        h2
    }
}

pub open spec fn view_of(st: ProxyState) -> ProxyStateView {
    ProxyStateView { alive: st.alive, history: st.delay_history@ }
}

/// The first entry of `s` whose key reads `name`, viewed.
pub open spec fn find_state(s: Seq<(String, ProxyState)>, name: Seq<char>) -> Option<ProxyStateView>
    decreases s.len(),
{
    if s.len() == 0 {
        None
    } else if s[0].0@ == name {
        Some(view_of(s[0].1))
    } else {
        find_state(s.drop_first(), name)
    }
}

/// If `i` is the first index of `s` whose key reads `name`, the lookup
/// returns that entry's view.
proof fn lemma_find_state_at_first_index(s: Seq<(String, ProxyState)>, name: Seq<char>, i: int)
    requires
        0 <= i < s.len(),
        s[i].0@ == name,
        forall|k: int| 0 <= k < i ==> s[k].0@ != name,
    ensures
        find_state(s, name) == Some(view_of(s[i].1)),
    decreases i,
{
    if i > 0 {
        lemma_find_state_at_first_index(s.drop_first(), name, i - 1);
    }
}

/// If no key of `s` reads `name`, the lookup fails.
proof fn lemma_find_state_absent(s: Seq<(String, ProxyState)>, name: Seq<char>)
    requires
        forall|k: int| 0 <= k < s.len() ==> s[k].0@ != name,
    ensures
        find_state(s, name) is None,
    decreases s.len(),
{
    if s.len() > 0 {
        lemma_find_state_absent(s.drop_first(), name);
    }
}

/// Replacing the entry at the first index of its key changes lookups for
/// that key alone.
proof fn lemma_find_state_update_one(
    s: Seq<(String, ProxyState)>,
    i: int,
    x: (String, ProxyState),
    n: Seq<char>,
)
    requires
        0 <= i < s.len(),
        x.0@ == s[i].0@,
        forall|k: int| 0 <= k < i ==> s[k].0@ != s[i].0@,
    ensures
        find_state(s.update(i, x), n) == (if n == x.0@ {
            Some(view_of(x.1))
        } else {
            find_state(s, n)
        }),
    decreases i,
{
    let t = s.update(i, x);
    if i == 0 {
        assert(t.drop_first() =~= s.drop_first());
    } else {
        assert(t.drop_first() =~= s.drop_first().update(i - 1, x));
        lemma_find_state_update_one(s.drop_first(), i - 1, x, n);
    }
}

/// Appending an entry with a fresh key changes lookups for that key alone.
proof fn lemma_find_state_push_one(s: Seq<(String, ProxyState)>, x: (String, ProxyState), n: Seq<char>)
    requires
        forall|k: int| 0 <= k < s.len() ==> s[k].0@ != x.0@,
    ensures
        find_state(s.push(x), n) == (if n == x.0@ {
            Some(view_of(x.1))
        } else {
            find_state(s, n)
        }),
    decreases s.len(),
{
    if s.len() == 0 {
        assert(s.push(x)[0] == x);
        assert(s.push(x).drop_first() =~= Seq::<(String, ProxyState)>::empty());
        assert(find_state(s, n) is None);
        if n == x.0@ {
            assert(find_state(s.push(x), n) == Some(view_of(x.1)));
        } else {
            assert(find_state(s.push(x), n) == find_state(s.push(x).drop_first(), n));
        }
    } else {
        assert(s.push(x)[0] == s[0]);
        assert(s.push(x).drop_first() =~= s.drop_first().push(x));
        lemma_find_state_push_one(s.drop_first(), x, n);
    }
}

/// Appending to the rolling window keeps it within its bound, and a full
/// window turns over: the oldest record leaves, the new one enters.
pub proof fn lemma_history_window(h: Seq<DelayHistory>, r: DelayHistory)
    requires
        h.len() <= HISTORY_WINDOW,
    ensures
        rolled(h, r).len() <= HISTORY_WINDOW,
        rolled(h, r).last() == r,
        h.len() == HISTORY_WINDOW ==> rolled(h, r) == h.drop_first().push(r),
        h.len() < HISTORY_WINDOW ==> rolled(h, r) == h.push(r),
{
    if h.len() == HISTORY_WINDOW {
        assert(h.push(r).drop_first() =~= h.drop_first().push(r));
    }
}

impl ProxyManager {
    /// The record for `name`, if one exists.
    pub open spec fn state_of(self, name: Seq<char>) -> Option<ProxyStateView> {
        find_state(self.entries@, name)
    }

    /// Liveness: false for a channel never reported on.
    pub open spec fn spec_alive(self, name: Seq<char>) -> bool {
        match self.state_of(name) {
            Some(v) => v.alive,
            None => false,
        }
    }

    /// History: empty for a channel never reported on.
    pub open spec fn spec_history(self, name: Seq<char>) -> Seq<DelayHistory> {
        match self.state_of(name) {
            Some(v) => v.history,
            None => Seq::<DelayHistory>::empty(),
        }
    }

    /// The latest usable delay: the max sentinel for a channel that is not
    /// alive or has no history, else the most recent record's delay.
    pub open spec fn spec_last_delay(self, name: Seq<char>) -> u16 {
        if !self.spec_alive(name) {
            u16::MAX
        } else if self.spec_history(name).len() == 0 {
            u16::MAX
        } else {
            self.spec_history(name).last().delay
        }
    }

    /// Every channel's history is within the rolling-window bound.
    pub open spec fn wf(self) -> bool {
        forall|k: int|
            0 <= k < self.entries@.len() ==> #[trigger] self.entries@[k].1.delay_history@.len()
                <= HISTORY_WINDOW
    }

    /// An empty registry.
    pub fn new() -> (r: ProxyManager)
        ensures
            r.wf(),
            forall|n: Seq<char>| #[trigger] r.state_of(n) is None,
    {
        ProxyManager { entries: Vec::new() }
    }

    /// The first entry index for `name`, if the channel is known.
    fn find_index(&self, name: &str) -> (r: Option<usize>)
        ensures
            match r {
                Some(i) => i < self.entries@.len() && self.entries@[i as int].0@ == name@ && (
                forall|k: int| 0 <= k < i ==> self.entries@[k].0@ != name@),
                None => forall|k: int| 0 <= k < self.entries@.len() ==> self.entries@[k].0@ != name@,
            },
    {
        let key = name.to_owned();
        let mut i: usize = 0;
        while i < self.entries.len()
            invariant
                i <= self.entries@.len(),
                key@ == name@,
                forall|k: int| 0 <= k < i ==> self.entries@[k].0@ != name@,
            decreases self.entries@.len() - i,
        {
            if self.entries[i].0 == key {
                return Some(i);
            }
            i += 1;
        }
        None
    }

    /// Whether `name` was last reported alive; false for an unknown channel.
    pub fn alive(&self, name: &str) -> (r: bool)
        ensures
            r == self.spec_alive(name@),
    {
        match self.find_index(name) {
            Some(i) => {
                proof {
                    lemma_find_state_at_first_index(self.entries@, name@, i as int);
                }
                self.entries[i].1.alive
            },
            None => {
                proof {
                    lemma_find_state_absent(self.entries@, name@);
                }
                false
            },
        }
    }

    /// Overrides liveness for `name` at once, independent of probing; a
    /// channel not yet seen gets a fresh record. The delay history is not
    /// touched, and no other channel changes.
    pub fn report_alive(&mut self, name: &str, alive: bool)
        requires
            old(self).wf(),
        ensures
            final(self).wf(),
            final(self).state_of(name@) == Some(
                (ProxyStateView { alive: alive, history: old(self).spec_history(name@) }),
            ),
            forall|n: Seq<char>| n != name@ ==> #[trigger] final(self).state_of(n) == old(
                self,
            ).state_of(n),
    {
        let ghost es = self.entries@;
        match self.find_index(name) {
            Some(i) => {
                proof {
                    lemma_find_state_at_first_index(es, name@, i as int);
                }
                let (k, st) = self.entries.remove(i);
                let ns = ProxyState { alive: alive, delay_history: st.delay_history };
                let ghost entryv = (k, ns);
                self.entries.insert(i, (k, ns));
                proof {
                    assert(self.entries@ =~= es.update(i as int, entryv));
                    assert forall|n: Seq<char>| true implies #[trigger] find_state(
                        self.entries@,
                        n,
                    ) == (if n == name@ {
                        Some(view_of(entryv.1))
                    } else {
                        find_state(es, n)
                    }) by {
                        lemma_find_state_update_one(es, i as int, entryv, n);
                    }
                }
            },
            None => {
                proof {
                    lemma_find_state_absent(es, name@);
                }
                let ns = ProxyState { alive: alive, delay_history: Vec::new() };
                let key = name.to_owned();
                let ghost entryv = (key, ns);
                self.entries.push((key, ns));
                proof {
                    assert(self.entries@ =~= es.push(entryv));
                    assert forall|n: Seq<char>| true implies #[trigger] find_state(
                        self.entries@,
                        n,
                    ) == (if n == name@ {
                        Some(view_of(entryv.1))
                    } else {
                        find_state(es, n)
                    }) by {
                        lemma_find_state_push_one(es, entryv, n);
                    }
                }
            },
        }
    }

    /// A snapshot of the delay history for `name`, oldest first; empty for
    /// an unknown channel.
    pub fn delay_history(&self, name: &str) -> (r: Vec<DelayHistory>)
        ensures
            r@ == self.spec_history(name@),
    {
        match self.find_index(name) {
            Some(i) => {
                proof {
                    lemma_find_state_at_first_index(self.entries@, name@, i as int);
                }
                let h = &self.entries[i].1.delay_history;
                let mut out: Vec<DelayHistory> = Vec::new();
                let mut j: usize = 0;
                while j < h.len()
                    invariant
                        j <= h@.len(),
                        out@ == h@.take(j as int),
                    decreases h@.len() - j,
                {
                    out.push(h[j]);
                    proof {
                        assert(out@ =~= h@.take(j + 1 as int));
                    }
                    j += 1;
                }
                proof {
                    assert(h@.take(h@.len() as int) =~= h@);
                }
                out
            },
            None => {
                proof {
                    lemma_find_state_absent(self.entries@, name@);
                }
                Vec::new()
            },
        }
    }

    /// The most recent delay for `name`, or the max sentinel when the
    /// channel is not alive or has no recorded history.
    pub fn last_delay(&self, name: &str) -> (r: u16)
        ensures
            r == self.spec_last_delay(name@),
    {
        if !self.alive(name) {
            return u16::MAX;
        }
        let h = self.delay_history(name);
        if h.len() == 0 {
            return u16::MAX;
        }
        h[h.len() - 1].delay
    }

    /// Folds one settled probe outcome into the record for `name`: liveness
    /// becomes whether the probe succeeded, and one record is appended
    /// (zeros on failure), evicting the oldest record past the window
    /// bound. No other channel changes.
    pub fn record_probe(&mut self, name: &str, time: u64, outcome: Option<(u16, u16)>)
        requires
            old(self).wf(),
        ensures
            final(self).wf(),
            final(self).state_of(name@) == Some(
                (ProxyStateView {
                    alive: outcome is Some,
                    history: rolled(old(self).spec_history(name@), record_of(time, outcome)),
                }),
            ),
            forall|n: Seq<char>| n != name@ ==> #[trigger] final(self).state_of(n) == old(
                self,
            ).state_of(n),
    {
        let rec = match outcome {
            Some(d) => DelayHistory { time: time, delay: d.0, mean_delay: d.1 },
            None => DelayHistory { time: time, delay: 0, mean_delay: 0 },
        };
        let ghost es = self.entries@;
        match self.find_index(name) {
            Some(i) => {
                proof {
                    lemma_find_state_at_first_index(es, name@, i as int);
                }
                let (k, st) = self.entries.remove(i);
                let mut h = st.delay_history;
                h.push(rec);
                if h.len() > HISTORY_WINDOW {
                    let _ = h.remove(0);
                    proof {
                        assert(h@ =~= rolled(es[i as int].1.delay_history@, rec));
                    }
                } else {
                    proof {
                        assert(h@ =~= rolled(es[i as int].1.delay_history@, rec));
                    }
                }
                let ns = ProxyState { alive: outcome.is_some(), delay_history: h };
                let ghost entryv = (k, ns);
                self.entries.insert(i, (k, ns));
                proof {
                    assert(self.entries@ =~= es.update(i as int, entryv));
                    assert forall|n: Seq<char>| true implies #[trigger] find_state(
                        self.entries@,
                        n,
                    ) == (if n == name@ {
                        Some(view_of(entryv.1))
                    } else {
                        find_state(es, n)
                    }) by {
                        lemma_find_state_update_one(es, i as int, entryv, n);
                    }
                }
            },
            None => {
                proof {
                    lemma_find_state_absent(es, name@);
                }
                let mut h: Vec<DelayHistory> = Vec::new();
                h.push(rec);
                proof {
                    assert(h@ =~= rolled(Seq::<DelayHistory>::empty(), rec));
                }
                let ns = ProxyState { alive: outcome.is_some(), delay_history: h };
                let key = name.to_owned();
                let ghost entryv = (key, ns);
                self.entries.push((key, ns));
                proof {
                    assert(self.entries@ =~= es.push(entryv));
                    assert forall|n: Seq<char>| true implies #[trigger] find_state(
                        self.entries@,
                        n,
                    ) == (if n == name@ {
                        Some(view_of(entryv.1))
                    } else {
                        find_state(es, n)
                    }) by {
                        lemma_find_state_push_one(es, entryv, n);
                    }
                }
            },
        }
    }
}

} // verus!
