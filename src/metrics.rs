use vstd::prelude::*;
use crate::types::Protocol;

verus! {

/// Traffic counters of one protocol.
#[derive(Debug, Clone, Copy, PartialEq, Eq, Structural)]
pub struct ProtocolStats {
    pub messages_in: u64,
    pub messages_out: u64,
    pub bytes_in: u64,
    pub bytes_out: u64,
    pub errors: u64,
}

/// Which counters an event raises.
#[derive(Debug, Clone, Copy, PartialEq, Eq, Structural)]
pub enum StatUpdate {
    /// A message of the protocol came in.
    Received,
    /// A message was handed to the protocol's channel.
    Sent,
    /// Handing a message to the protocol's channel failed.
    Failed,
}

/// Global and per-protocol counters of the router.
#[derive(Debug)]
pub struct RouterMetrics {
    pub messages_routed: u64,
    pub messages_dropped: u64,
    /// One entry per protocol whose handler was registered.
    pub protocol_stats: Vec<(Protocol, ProtocolStats)>,
}

/// `a + b`, held at `u64::MAX`.
pub open spec fn sat_add(a: u64, b: int) -> u64 {
    if a + b > u64::MAX {
        u64::MAX
    } else {
        (a + b) as u64
    }
}

/// The counters all at zero.
pub open spec fn zero_stats() -> ProtocolStats {
    ProtocolStats { messages_in: 0, messages_out: 0, bytes_in: 0, bytes_out: 0, errors: 0 }
}

/// `st` after one event of kind `u` for a payload of `len` bytes.
pub open spec fn bumped(st: ProtocolStats, u: StatUpdate, len: u64) -> ProtocolStats {
    match u {
        StatUpdate::Received => ProtocolStats {
            messages_in: sat_add(st.messages_in, 1),
            bytes_in: sat_add(st.bytes_in, len as int),
            ..st
        },
        StatUpdate::Sent => ProtocolStats {
            messages_out: sat_add(st.messages_out, 1),
            bytes_out: sat_add(st.bytes_out, len as int),
            ..st
        },
        StatUpdate::Failed => ProtocolStats { errors: sat_add(st.errors, 1), ..st },
    }
}

/// The per-protocol table after an event of kind `u` on protocol `p`; a
/// protocol without an entry is not counted.
pub open spec fn stats_bumped(
    s: Seq<(Protocol, ProtocolStats)>,
    p: Protocol,
    u: StatUpdate,
    len: u64,
) -> Seq<(Protocol, ProtocolStats)> {
    Seq::new(s.len(), |i: int| if s[i].0 == p { (p, bumped(s[i].1, u, len)) } else { s[i] })
}

/// Whether the table has an entry for `p`.
pub open spec fn has_stats(s: Seq<(Protocol, ProtocolStats)>, p: Protocol) -> bool {
    exists|i: int| 0 <= i < s.len() && #[trigger] s[i].0 == p
}

/// The table after (re)starting the counters of `p` at zero.
pub open spec fn stats_reset(s: Seq<(Protocol, ProtocolStats)>, p: Protocol) -> Seq<
    (Protocol, ProtocolStats),
> {
    if has_stats(s, p) {
        Seq::new(s.len(), |i: int| if s[i].0 == p { (p, zero_stats()) } else { s[i] })
    } else {
        s.push((p, zero_stats()))
    }
}

/// No protocol has two entries.
pub open spec fn stats_keys_unique(s: Seq<(Protocol, ProtocolStats)>) -> bool {
    forall|i: int, j: int| 0 <= i < j < s.len() ==> s[i].0 != s[j].0
}

/// The counters of `p` in the table, if it has an entry.
pub open spec fn stats_of(s: Seq<(Protocol, ProtocolStats)>, p: Protocol) -> Option<ProtocolStats> {
    if has_stats(s, p) {
        Some(s[choose|i: int| 0 <= i < s.len() && s[i].0 == p].1)
    } else {
        None
    }
}

impl ProtocolStats {
    /// Counters at zero.
    pub fn new() -> (r: ProtocolStats)
        ensures
            r == zero_stats(),
    {
        ProtocolStats { messages_in: 0, messages_out: 0, bytes_in: 0, bytes_out: 0, errors: 0 }
    }
}

impl RouterMetrics {
    /// No traffic counted and no protocol registered.
    pub fn new() -> (r: RouterMetrics)
        ensures
            r.messages_routed == 0,
            r.messages_dropped == 0,
            r.protocol_stats@ == Seq::<(Protocol, ProtocolStats)>::empty(),
    {
        RouterMetrics { messages_routed: 0, messages_dropped: 0, protocol_stats: Vec::new() }
    }

    /// Counts an event of kind `u` on protocol `p` for a payload of `len` bytes.
    pub fn record(&mut self, p: Protocol, u: StatUpdate, len: u64)
        ensures
            final(self).messages_routed == old(self).messages_routed,
            final(self).messages_dropped == old(self).messages_dropped,
            final(self).protocol_stats@ == stats_bumped(old(self).protocol_stats@, p, u, len),
    {
        let mut i: usize = 0;
        while i < self.protocol_stats.len()
            invariant
                i <= self.protocol_stats@.len(),
                self.protocol_stats@.len() == old(self).protocol_stats@.len(),
                self.messages_routed == old(self).messages_routed,
                self.messages_dropped == old(self).messages_dropped,
                forall|j: int|
                    0 <= j < i ==> #[trigger] self.protocol_stats@[j] == stats_bumped(
                        old(self).protocol_stats@,
                        p,
                        u,
                        len,
                    )[j],
                forall|j: int|
                    i <= j < self.protocol_stats@.len() ==> #[trigger] self.protocol_stats@[j]
                        == old(self).protocol_stats@[j],
            decreases self.protocol_stats@.len() - i,
        {
            let (q, st) = self.protocol_stats[i];
            if q == p {
                let next = match u {
                    StatUpdate::Received => ProtocolStats {
                        messages_in: st.messages_in.saturating_add(1),
                        bytes_in: st.bytes_in.saturating_add(len),
                        ..st
                    },
                    StatUpdate::Sent => ProtocolStats {
                        messages_out: st.messages_out.saturating_add(1),
                        bytes_out: st.bytes_out.saturating_add(len),
                        ..st
                    },
                    StatUpdate::Failed => ProtocolStats { errors: st.errors.saturating_add(1), ..st },
                };
                self.protocol_stats[i] = (p, next);
            }
            i = i + 1;
        }
        assert(self.protocol_stats@ =~= stats_bumped(old(self).protocol_stats@, p, u, len));
    }

    /// Counts the end of one routing call: routed if some copy went out,
    /// dropped otherwise.
    pub fn record_outcome(&mut self, routed: bool)
        ensures
            final(self).protocol_stats@ == old(self).protocol_stats@,
            routed ==> final(self).messages_routed == sat_add(old(self).messages_routed, 1)
                && final(self).messages_dropped == old(self).messages_dropped,
            !routed ==> final(self).messages_dropped == sat_add(old(self).messages_dropped, 1)
                && final(self).messages_routed == old(self).messages_routed,
    {
        if routed {
            self.messages_routed = self.messages_routed.saturating_add(1);
        } else {
            self.messages_dropped = self.messages_dropped.saturating_add(1);
        }
    }

    /// Starts the counters of `p` at zero, adding its entry if it has none.
    pub fn reset_protocol(&mut self, p: Protocol)
        ensures
            final(self).messages_routed == old(self).messages_routed,
            final(self).messages_dropped == old(self).messages_dropped,
            final(self).protocol_stats@ == stats_reset(old(self).protocol_stats@, p),
    {
        let ghost s0 = self.protocol_stats@;
        let mut found = false;
        let mut i: usize = 0;
        while i < self.protocol_stats.len()
            invariant
                i <= self.protocol_stats@.len(),
                s0 == old(self).protocol_stats@,
                self.protocol_stats@.len() == s0.len(),
                self.messages_routed == old(self).messages_routed,
                self.messages_dropped == old(self).messages_dropped,
                found == exists|j: int| 0 <= j < i && #[trigger] s0[j].0 == p,
                forall|j: int|
                    0 <= j < i ==> #[trigger] self.protocol_stats@[j] == (if s0[j].0 == p {
                        (p, zero_stats())
                    } else {
                        s0[j]
                    }),
                forall|j: int| i <= j < s0.len() ==> #[trigger] self.protocol_stats@[j] == s0[j],
            decreases s0.len() - i,
        {
            if self.protocol_stats[i].0 == p {
                self.protocol_stats[i] = (p, ProtocolStats::new());
                found = true;
            }
            i = i + 1;
        }
        if !found {
            self.protocol_stats.push((p, ProtocolStats::new()));
            assert(self.protocol_stats@ =~= stats_reset(s0, p));
        } else {
            assert(self.protocol_stats@ =~= stats_reset(s0, p));
        }
    }

    /// The counters of `p`: those of its first entry, or `None` without one.
    pub fn stats_for(&self, p: Protocol) -> (r: Option<ProtocolStats>)
        ensures
            match r {
                Some(st) => exists|i: int|
                    0 <= i < self.protocol_stats@.len() && self.protocol_stats@[i] == (p, st) && (
                    forall|j: int| 0 <= j < i ==> #[trigger] self.protocol_stats@[j].0 != p),
                None => !has_stats(self.protocol_stats@, p),
            },
            stats_keys_unique(self.protocol_stats@) ==> r == stats_of(self.protocol_stats@, p),
    {
        let mut i: usize = 0;
        while i < self.protocol_stats.len()
            invariant
                i <= self.protocol_stats@.len(),
                forall|j: int| 0 <= j < i ==> #[trigger] self.protocol_stats@[j].0 != p,
            decreases self.protocol_stats@.len() - i,
        {
            if self.protocol_stats[i].0 == p {
                let st = self.protocol_stats[i].1;
                proof {
                    if stats_keys_unique(self.protocol_stats@) {
                        let c = choose|c: int|
                            0 <= c < self.protocol_stats@.len() && self.protocol_stats@[c].0 == p;
                        assert(c == i);
                    }
                }
                return Some(st);
            }
            i = i + 1;
        }
        None
    }

    /// A copy of every counter.
    pub fn snapshot(&self) -> (r: RouterMetrics)
        ensures
            r.messages_routed == self.messages_routed,
            r.messages_dropped == self.messages_dropped,
            r.protocol_stats@ == self.protocol_stats@,
    {
        let mut s: Vec<(Protocol, ProtocolStats)> = Vec::new();
        let mut i: usize = 0;
        while i < self.protocol_stats.len()
            invariant
                i <= self.protocol_stats@.len(),
                s@ == self.protocol_stats@.subrange(0, i as int),
            decreases self.protocol_stats@.len() - i,
        {
            s.push(self.protocol_stats[i]);
            i = i + 1;
            assert(s@ =~= self.protocol_stats@.subrange(0, i as int));
        }
        assert(self.protocol_stats@.subrange(0, i as int) =~= self.protocol_stats@);
        RouterMetrics {
            messages_routed: self.messages_routed,
            messages_dropped: self.messages_dropped,
            protocol_stats: s,
        }
    }
}

} // verus!
