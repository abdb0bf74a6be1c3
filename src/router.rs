use vstd::prelude::*;
use tokio::sync::mpsc::UnboundedSender;
use crate::metrics::{
    has_stats, sat_add, stats_bumped, stats_keys_unique, stats_reset, ProtocolStats, RouterMetrics,
    StatUpdate,
};
use crate::topic::{topic_match, topic_matches};
use crate::transform::{
    apply_transformation_at, copy_message, delivered_with, epoch_seconds_now, is_decimal_numeral,
    lemma_delivered_with_copy, transformation_named,
};
use crate::types::{Message, Protocol, RouteRule, RouterError};

verus! {

#[verifier::external_type_specification]
#[verifier::external_body]
#[verifier::reject_recursive_types(T)]
pub struct ExUnboundedSender<T>(UnboundedSender<T>);

/// Relies on tokio's UnboundedSender::send: it hands the message to the
/// channel without blocking and fails when the receiving side is closed. Only
/// whether it succeeded comes back; nothing is known of that in advance.
#[verifier::external_body]
fn dispatch(handler: &UnboundedSender<Message>, message: Message) -> (sent: bool) {
    handler.send(message).is_ok()
}

/// Whether some rule of `rules` has identifier `id`.
pub open spec fn has_rule(rules: Seq<RouteRule>, id: Seq<char>) -> bool {
    exists|i: int| 0 <= i < rules.len() && #[trigger] rules[i].id@ == id
}

/// No two rules share an identifier.
pub open spec fn rule_ids_unique(rules: Seq<RouteRule>) -> bool {
    forall|i: int, j: int| 0 <= i < j < rules.len() ==> rules[i].id@ != rules[j].id@
}

/// The rule list after adding `rule`: unchanged when its identifier is taken,
/// else `rule` at the end.
pub open spec fn rules_after_add(rules: Seq<RouteRule>, rule: RouteRule) -> Seq<RouteRule> {
    if has_rule(rules, rule.id@) {
        rules
    } else {
        rules.push(rule)
    }
}

/// The rule list without the rules whose identifier is `id`, in the same order.
pub open spec fn rules_without(rules: Seq<RouteRule>, id: Seq<char>) -> Seq<RouteRule>
    decreases rules.len(),
{
    if rules.len() == 0 {
        rules
    } else {
        let rest = rules_without(rules.drop_last(), id);
        if rules.last().id@ == id {
            rest
        } else {
            rest.push(rules.last())
        }
    }
}

/// The enabled rules, in order.
pub open spec fn enabled_only(rules: Seq<RouteRule>) -> Seq<RouteRule>
    decreases rules.len(),
{
    if rules.len() == 0 {
        rules
    } else {
        let rest = enabled_only(rules.drop_last());
        if rules.last().enabled {
            rest.push(rules.last())
        } else {
            rest
        }
    }
}

/// The protocols of the handler table, in order.
pub open spec fn handler_protocols(h: Seq<(Protocol, UnboundedSender<Message>)>) -> Seq<Protocol> {
    h.map_values(|e: (Protocol, UnboundedSender<Message>)| e.0)
}

/// No protocol has two handlers.
pub open spec fn protocols_unique(ps: Seq<Protocol>) -> bool {
    forall|i: int, j: int| 0 <= i < j < ps.len() ==> ps[i] != ps[j]
}

/// Whether `rule` applies to `m`: it is enabled, `m` comes from its source
/// protocol, and the topic of `m` matches its pattern.
pub open spec fn rule_fires(rule: RouteRule, m: Message) -> bool {
    &&& rule.enabled
    &&& rule.source_protocol == m.protocol
    &&& topic_match(m.topic@, rule.topic_pattern@)
}

/// The targets of `ts` that have a handler, in order, repeats kept.
pub open spec fn served_targets(ts: Seq<Protocol>, handlers: Seq<Protocol>) -> Seq<Protocol>
    decreases ts.len(),
{
    if ts.len() == 0 {
        ts
    } else {
        let rest = served_targets(ts.drop_last(), handlers);
        if handlers.contains(ts.last()) {
            rest.push(ts.last())
        } else {
            rest
        }
    }
}

/// Each target paired with the transformation applied before it is sent to.
pub open spec fn tagged(ts: Seq<Protocol>, t: Option<String>) -> Seq<(Protocol, Option<String>)> {
    ts.map_values(|p: Protocol| (p, t))
}

/// The deliveries that routing `m` attempts, in order: for each rule that
/// fires, each of its targets with a handler, with the rule's transformation.
pub open spec fn deliveries(rules: Seq<RouteRule>, handlers: Seq<Protocol>, m: Message) -> Seq<
    (Protocol, Option<String>),
>
    decreases rules.len(),
{
    if rules.len() == 0 {
        Seq::empty()
    } else {
        let rest = deliveries(rules.drop_last(), handlers, m);
        let rule = rules.last();
        if rule_fires(rule, m) {
            rest + tagged(served_targets(rule.target_protocols@, handlers), rule.transformation)
        } else {
            rest
        }
    }
}

/// Whether a rule's transformation is absent or names a known one.
pub open spec fn transformation_valid(t: Option<String>) -> bool {
    match t {
        None => true,
        Some(id) => transformation_named(id@) is Some,
    }
}

/// The counter that a send outcome raises.
pub open spec fn outcome_update(sent: bool) -> StatUpdate {
    if sent {
        StatUpdate::Sent
    } else {
        StatUpdate::Failed
    }
}

/// The per-protocol counters after the deliveries `ds` of a payload of `len`
/// bytes, `outs[i]` telling whether the send of `ds[i]` succeeded.
pub open spec fn after_deliveries(
    s: Seq<(Protocol, ProtocolStats)>,
    ds: Seq<(Protocol, Option<String>)>,
    len: u64,
    outs: Seq<bool>,
) -> Seq<(Protocol, ProtocolStats)>
    decreases ds.len(),
{
    if ds.len() == 0 {
        s
    } else {
        stats_bumped(
            after_deliveries(s, ds.drop_last(), len, outs.drop_last()),
            ds.last().0,
            outcome_update(outs.last()),
            len,
        )
    }
}

/// The routed count after a call whose sends had outcomes `outs`.
pub open spec fn routed_after(routed: u64, outs: Seq<bool>) -> u64 {
    if outs.contains(true) {
        sat_add(routed, 1)
    } else {
        routed
    }
}

/// The dropped count after a call whose sends had outcomes `outs`.
pub open spec fn dropped_after(dropped: u64, outs: Seq<bool>) -> u64 {
    if outs.contains(true) {
        dropped
    } else {
        sat_add(dropped, 1)
    }
}

/// The router: a rule store, a table of outbound channels by protocol, and metrics.
pub struct MessageRouter {
    rules: Vec<RouteRule>,
    protocol_handlers: Vec<(Protocol, UnboundedSender<Message>)>,
    metrics: RouterMetrics,
    /// Every message handed to a channel so far: the target, the message, and
    /// whether the channel took it.
    sent: Ghost<Seq<(Protocol, Message, bool)>>,
}

/// Whether each logged send was taken by its channel.
pub open spec fn outcomes(log: Seq<(Protocol, Message, bool)>) -> Seq<bool> {
    log.map_values(|e: (Protocol, Message, bool)| e.2)
}

impl MessageRouter {
    /// The channel of protocol `p`, if it has one.
    pub closed spec fn handler_of(&self, p: Protocol) -> Option<UnboundedSender<Message>> {
        let h = self.protocol_handlers@;
        if exists|i: int| 0 <= i < h.len() && h[i].0 == p {
            Some(h[choose|i: int| 0 <= i < h.len() && h[i].0 == p].1)
        } else {
            None
        }
    }

    /// The sends made so far, in order.
    pub closed spec fn sent_log(&self) -> Seq<(Protocol, Message, bool)> {
        self.sent@
    }

    /// The rules, in the order they were added.
    pub closed spec fn rules_seq(&self) -> Seq<RouteRule> {
        self.rules@
    }

    /// The protocols that have a handler, in the order they were registered.
    pub closed spec fn handlers_seq(&self) -> Seq<Protocol> {
        handler_protocols(self.protocol_handlers@)
    }

    /// Routed-message count.
    pub closed spec fn routed(&self) -> u64 {
        self.metrics.messages_routed
    }

    /// Dropped-message count.
    pub closed spec fn dropped(&self) -> u64 {
        self.metrics.messages_dropped
    }

    /// The per-protocol counters.
    pub closed spec fn stats_seq(&self) -> Seq<(Protocol, ProtocolStats)> {
        self.metrics.protocol_stats@
    }

    /// Rule identifiers are unique and each protocol has at most one handler
    /// and one set of counters.
    pub open spec fn wf(&self) -> bool {
        &&& rule_ids_unique(self.rules_seq())
        &&& protocols_unique(self.handlers_seq())
        &&& stats_keys_unique(self.stats_seq())
    }

    /// A router with no rules, no handlers and no traffic.
    pub fn new() -> (r: MessageRouter)
        ensures
            r.wf(),
            r.rules_seq() == Seq::<RouteRule>::empty(),
            r.handlers_seq() == Seq::<Protocol>::empty(),
            r.stats_seq() == Seq::<(Protocol, ProtocolStats)>::empty(),
            r.routed() == 0,
            r.dropped() == 0,
            r.sent_log() == Seq::<(Protocol, Message, bool)>::empty(),
    {
        let r = MessageRouter {
            rules: Vec::new(),
            protocol_handlers: Vec::new(),
            metrics: RouterMetrics::new(),
            sent: Ghost(Seq::empty()),
        };
        assert(r.handlers_seq() =~= Seq::<Protocol>::empty());
        r
    }

    /// Sets the outbound channel of `protocol`, replacing an earlier one, and
    /// starts its counters at zero.
    pub fn register_protocol_handler(&mut self, protocol: Protocol, sender: UnboundedSender<Message>)
        ensures
            old(self).wf() ==> final(self).wf(),
            final(self).rules_seq() == old(self).rules_seq(),
            final(self).handlers_seq() == (if old(self).handlers_seq().contains(protocol) {
                old(self).handlers_seq()
            } else {
                old(self).handlers_seq().push(protocol)
            }),
            final(self).stats_seq() == stats_reset(old(self).stats_seq(), protocol),
            old(self).wf() ==> final(self).handler_of(protocol) == Some(sender),
            old(self).wf() ==> forall|q: Protocol|
                q != protocol ==> #[trigger] final(self).handler_of(q) == old(self).handler_of(q),
            final(self).routed() == old(self).routed(),
            final(self).dropped() == old(self).dropped(),
            final(self).sent_log() == old(self).sent_log(),
    {
        let ghost h0 = handler_protocols(self.protocol_handlers@);
        let ghost mut idx: int = self.protocol_handlers@.len() as int;
        match self.find_handler(protocol) {
            Some(i) => {
                assert(h0[i as int] == protocol);
                self.protocol_handlers[i] = (protocol, sender);
                proof {
                    idx = i as int;
                }
                assert(handler_protocols(self.protocol_handlers@) =~= h0);
            },
            None => {
                self.protocol_handlers.push((protocol, sender));
                assert(handler_protocols(self.protocol_handlers@) =~= h0.push(protocol));
            },
        }
        self.metrics.reset_protocol(protocol);
        proof {
            let h0s = old(self).protocol_handlers@;
            let h1 = self.protocol_handlers@;
            if old(self).wf() {
                assert(protocols_unique(handler_protocols(h1)));
                assert forall|a: int, b: int| 0 <= a < b < h1.len() implies h1[a].0 != h1[b].0 by {
                    assert(handler_protocols(h1)[a] == h1[a].0);
                    assert(handler_protocols(h1)[b] == h1[b].0);
                }
                assert forall|a: int, b: int| 0 <= a < b < h0s.len() implies h0s[a].0 != h0s[b].0 by {
                    assert(handler_protocols(h0s)[a] == h0s[a].0);
                    assert(handler_protocols(h0s)[b] == h0s[b].0);
                }
                assert(h1[idx] == (protocol, sender));
                let w = choose|i: int| 0 <= i < h1.len() && h1[i].0 == protocol;
                assert(w == idx);
                assert forall|q: Protocol| q != protocol implies #[trigger] self.handler_of(q) == old(self).handler_of(q) by {
                    assert forall|i: int| 0 <= i < h0s.len() && h0s[i].0 == q implies h1[i] == h0s[i] by {}
                    assert forall|i: int| 0 <= i < h1.len() && h1[i].0 == q implies i < h0s.len() && h1[i] == h0s[i] by {}
                    if exists|i: int| 0 <= i < h0s.len() && h0s[i].0 == q {
                        let c0 = choose|i: int| 0 <= i < h0s.len() && h0s[i].0 == q;
                        assert(h1[c0].0 == q);
                        let c1 = choose|i: int| 0 <= i < h1.len() && h1[i].0 == q;
                        assert(c1 == c0);
                    }
                }
            }
        }
        proof {
            let s0 = old(self).metrics.protocol_stats@;
            let s1 = self.metrics.protocol_stats@;
            if stats_keys_unique(s0) {
                if !has_stats(s0, protocol) {
                    assert forall|i: int, j: int| 0 <= i < j < s1.len() implies s1[i].0 != s1[j].0 by {
                        if j == s0.len() {
                            assert(s0[i].0 != protocol);
                        }
                    }
                }
            }
        }
    }

    /// The position of the handler of `p`, if there is one.
    fn find_handler(&self, p: Protocol) -> (r: Option<usize>)
        ensures
            match r {
                Some(i) => i < self.protocol_handlers@.len() && self.protocol_handlers@[i as int].0 == p,
                None => !self.handlers_seq().contains(p),
            },
    {
        let mut i: usize = 0;
        while i < self.protocol_handlers.len()
            invariant
                i <= self.protocol_handlers@.len(),
                forall|j: int| 0 <= j < i ==> #[trigger] self.protocol_handlers@[j].0 != p,
            decreases self.protocol_handlers@.len() - i,
        {
            if self.protocol_handlers[i].0 == p {
                return Some(i);
            }
            i = i + 1;
        }
        proof {
            if self.handlers_seq().contains(p) {
                let j = choose|j: int| 0 <= j < self.handlers_seq().len() && self.handlers_seq()[j] == p;
                assert(self.protocol_handlers@[j].0 == p);
            }
        }
        None
    }

    /// Adds `rule` at the end of the rule list, unless a rule with its
    /// identifier is already there: then `DuplicateRule` with that identifier,
    /// and nothing changes.
    pub fn add_route_rule(&mut self, rule: RouteRule) -> (r: Result<(), RouterError>)
        ensures
            old(self).wf() ==> final(self).wf(),
            final(self).rules_seq() == rules_after_add(old(self).rules_seq(), rule),
            final(self).handlers_seq() == old(self).handlers_seq(),
            final(self).stats_seq() == old(self).stats_seq(),
            final(self).routed() == old(self).routed(),
            final(self).dropped() == old(self).dropped(),
            match r {
                Ok(()) => !has_rule(old(self).rules_seq(), rule.id@),
                Err(e) => has_rule(old(self).rules_seq(), rule.id@) && (e matches RouterError::DuplicateRule(s) && s@ == rule.id@),
            },
            final(self).sent_log() == old(self).sent_log(),
            forall|q: Protocol| #[trigger] final(self).handler_of(q) == old(self).handler_of(q),
    {
        let mut i: usize = 0;
        while i < self.rules.len()
            invariant
                i <= self.rules@.len(),
                forall|j: int| 0 <= j < i ==> #[trigger] self.rules@[j].id@ != rule.id@,
            decreases self.rules@.len() - i,
        {
            if self.rules[i].id == rule.id {
                return Err(RouterError::DuplicateRule(rule.id));
            }
            i = i + 1;
        }
        self.rules.push(rule);
        assert(self.protocol_handlers@ == old(self).protocol_handlers@);
        Ok(())
    }

    /// Removes every rule with identifier `rule_id`; without one, fails with
    /// `RuleNotFound` carrying it and changes nothing.
    pub fn remove_route_rule(&mut self, rule_id: &str) -> (r: Result<(), RouterError>)
        ensures
            old(self).wf() ==> final(self).wf(),
            final(self).rules_seq() == rules_without(old(self).rules_seq(), rule_id@),
            final(self).handlers_seq() == old(self).handlers_seq(),
            final(self).stats_seq() == old(self).stats_seq(),
            final(self).routed() == old(self).routed(),
            final(self).dropped() == old(self).dropped(),
            match r {
                Ok(()) => has_rule(old(self).rules_seq(), rule_id@),
                Err(e) => !has_rule(old(self).rules_seq(), rule_id@) && final(self).rules_seq()
                    == old(self).rules_seq() && (e matches RouterError::RuleNotFound(s) && s@ == rule_id@),
            },
            final(self).sent_log() == old(self).sent_log(),
            forall|q: Protocol| #[trigger] final(self).handler_of(q) == old(self).handler_of(q),
    {
        let id = String::from_str(rule_id);
        let ghost r0 = self.rules@;
        let ghost mut k: int = 0;
        let mut found = false;
        let mut i: usize = 0;
        while i < self.rules.len()
            invariant
                id@ == rule_id@,
                r0 == old(self).rules@,
                0 <= i <= k <= r0.len(),
                self.rules@.len() == i + (r0.len() - k),
                self.rules@.take(i as int) == rules_without(r0.take(k), rule_id@),
                self.rules@.skip(i as int) == r0.skip(k),
                found == has_rule(r0.take(k), rule_id@),
                self.protocol_handlers == old(self).protocol_handlers,
                self.metrics == old(self).metrics,
                self.sent == old(self).sent,
            decreases self.rules@.len() - i,
        {
            proof {
                assert(r0.take(k + 1).drop_last() =~= r0.take(k));
                assert(r0[k] == self.rules@.skip(i as int)[0]);
            }
            let ghost before = self.rules@;
            if self.rules[i].id == id {
                self.rules.remove(i);
                found = true;
                proof {
                    assert(self.rules@.take(i as int) =~= before.take(i as int));
                    assert forall|x: int| 0 <= x < self.rules@.skip(i as int).len() implies
                        #[trigger] self.rules@.skip(i as int)[x] == r0.skip(k + 1)[x] by {
                        assert(before.skip(i as int)[x + 1] == r0.skip(k)[x + 1]);
                    }
                    assert(self.rules@.skip(i as int) =~= r0.skip(k + 1));
                    assert(r0.take(k + 1).last() == r0[k]);
                    assert(r0.take(k + 1)[k] == r0[k]);
                    assert(r0[k] == before[i as int]);
                    assert(r0.take(k + 1)[k].id@ == rule_id@);
                    assert(has_rule(r0.take(k + 1), rule_id@));
                    k = k + 1;
                }
            } else {
                proof {
                    assert(r0.take(k + 1).last() == r0[k]);
                    assert forall|x: int| 0 <= x < before.skip(i + 1).len() implies
                        #[trigger] before.skip(i + 1)[x] == r0.skip(k + 1)[x] by {
                        assert(before.skip(i as int)[x + 1] == r0.skip(k)[x + 1]);
                    }
                    assert(before.take(i + 1) =~= before.take(i as int).push(r0[k]));
                    assert(before.skip(i + 1) =~= r0.skip(k + 1));
                    assert(has_rule(r0.take(k + 1), rule_id@) == has_rule(r0.take(k), rule_id@)) by {
                        if has_rule(r0.take(k + 1), rule_id@) {
                            let j = choose|j: int| 0 <= j < k + 1 && #[trigger] r0.take(k + 1)[j].id@ == rule_id@;
                            assert(r0.take(k)[j] == r0[j]);
                        }
                        if has_rule(r0.take(k), rule_id@) {
                            let j = choose|j: int| 0 <= j < k && #[trigger] r0.take(k)[j].id@ == rule_id@;
                            assert(r0.take(k + 1)[j] == r0[j]);
                        }
                    }
                    k = k + 1;
                }
                i = i + 1;
            }
        }
        proof {
            assert(k == r0.len());
            assert(r0.take(k) =~= r0);
            assert(self.rules@.take(i as int) =~= self.rules@);
        }
        if !found {
            proof {
                lemma_without_absent(r0, rule_id@);
            }
            return Err(RouterError::RuleNotFound(id));
        }
        proof {
            if rule_ids_unique(r0) {
                lemma_without_unique(r0, rule_id@);
            }
        }
        Ok(())
    }

    /// Routes `message`. Its protocol's input counters go up first. Then, for
    /// each enabled rule with the message's protocol as source and a pattern
    /// that its topic matches, in rule order, and for each target of the rule
    /// that has a handler, in order: a copy of the message, transformed as the
    /// rule says, is handed to the target's channel; the target's output
    /// counters go up if that worked, its error count if not. An unknown
    /// transformation stops the call at once with `InvalidTransformation`.
    /// Otherwise the call counts as routed if some copy went out, as dropped
    /// if none did. Each send is appended to `sent_log` with its target, the
    /// copy handed over and whether the channel took it. The clock is read
    /// once per call, so every target of a rule receives the same copy.
    pub fn route_message(&mut self, message: Message) -> (r: Result<(), RouterError>)
        ensures
            final(self).rules_seq() == old(self).rules_seq(),
            final(self).handlers_seq() == old(self).handlers_seq(),
            old(self).wf() ==> final(self).wf(),
            ({
                let ds = deliveries(old(self).rules_seq(), old(self).handlers_seq(), message);
                let len = message.payload@.len() as u64;
                let s0 = stats_bumped(old(self).stats_seq(), message.protocol, StatUpdate::Received, len);
                let sends = final(self).sent_log().skip(old(self).sent_log().len() as int);
                &&& old(self).sent_log().is_prefix_of(final(self).sent_log())
                &&& sends.len() <= ds.len()
                &&& exists|stamp: Seq<char>|
                    #[trigger] is_decimal_numeral(stamp) && forall|i: int|
                        0 <= i < sends.len() ==> (#[trigger] sends[i]).0 == ds[i].0 && delivered_with(
                            message,
                            ds[i].1,
                            stamp,
                            sends[i].1,
                        )
                &&& forall|j: int| 0 <= j < sends.len() ==> transformation_valid(#[trigger] ds[j].1)
                &&& match r {
                    Ok(()) => {
                        &&& sends.len() == ds.len()
                        &&& final(self).stats_seq() == after_deliveries(s0, ds, len, outcomes(sends))
                        &&& final(self).routed() == routed_after(old(self).routed(), outcomes(sends))
                        &&& final(self).dropped() == dropped_after(old(self).dropped(), outcomes(sends))
                    },
                    Err(e) => {
                        &&& sends.len() < ds.len()
                        &&& ds[sends.len() as int].1 matches Some(id) && transformation_named(id@) is None
                            && (e matches RouterError::InvalidTransformation(s) && s@ == id@)
                        &&& final(self).stats_seq() == after_deliveries(
                            s0,
                            ds.take(sends.len() as int),
                            len,
                            outcomes(sends),
                        )
                        &&& final(self).routed() == old(self).routed()
                        &&& final(self).dropped() == old(self).dropped()
                    },
                }
            }),
            forall|q: Protocol| #[trigger] final(self).handler_of(q) == old(self).handler_of(q),
    {
        let len = message.payload.len() as u64;
        let now = epoch_seconds_now();
        self.metrics.record(message.protocol, StatUpdate::Received, len);
        let ghost s0 = self.metrics.protocol_stats@;
        proof {
            lemma_stats_bumped_keys(old(self).stats_seq(), message.protocol, StatUpdate::Received, len);
        }
        let ghost hs = self.handlers_seq();
        let ghost all = deliveries(self.rules@, hs, message);
        let ghost mut done: Seq<(Protocol, Option<String>)> = Seq::empty();
        let ghost mut outs: Seq<bool> = Seq::empty();
        let ghost mut log: Seq<(Protocol, Message, bool)> = Seq::empty();
        let mut routed = false;
        let mut ri: usize = 0;
        proof {
            assert(self.rules@.take(0) =~= Seq::<RouteRule>::empty());
        }
        while ri < self.rules.len()
            invariant
                ri <= self.rules@.len(),
                self.rules == old(self).rules,
                self.protocol_handlers == old(self).protocol_handlers,
                hs == self.handlers_seq(),
                all == deliveries(self.rules@, hs, message),
                len == message.payload@.len() as u64,
                s0 == stats_bumped(old(self).stats_seq(), message.protocol, StatUpdate::Received, len),
                stats_keys_unique(old(self).stats_seq()) ==> stats_keys_unique(s0),
                self.metrics.messages_routed == old(self).metrics.messages_routed,
                self.metrics.messages_dropped == old(self).metrics.messages_dropped,
                done == deliveries(self.rules@.take(ri as int), hs, message),
                outs.len() == done.len(),
                log.len() == done.len(),
                outcomes(log) == outs,
                self.sent@ == old(self).sent@ + log,
                forall|i: int|
                    0 <= i < log.len() ==> (#[trigger] log[i]).0 == done[i].0 && delivered_with(
                        message,
                        done[i].1,
                        now@,
                        log[i].1,
                    ),
                is_decimal_numeral(now@),
                forall|j: int| 0 <= j < done.len() ==> transformation_valid(#[trigger] done[j].1),
                self.metrics.protocol_stats@ == after_deliveries(s0, done, len, outs),
                routed == outs.contains(true),
            decreases self.rules@.len() - ri,
        {
            let rule = &self.rules[ri];
            proof {
                assert(self.rules@.take(ri + 1).drop_last() =~= self.rules@.take(ri as int));
                assert(self.rules@.take(ri + 1).last() == self.rules@[ri as int]);
            }
            if rule.enabled && rule.source_protocol == message.protocol && topic_matches(
                message.topic.as_str(),
                rule.topic_pattern.as_str(),
            ) {
                let ghost base = done;
                let ghost ts = rule.target_protocols@;
                let mut ti: usize = 0;
                proof {
                    assert(ts.take(0) =~= Seq::<Protocol>::empty());
                    assert(tagged(Seq::<Protocol>::empty(), rule.transformation) =~= Seq::empty());
                    assert(base + Seq::<(Protocol, Option<String>)>::empty() =~= base);
                }
                while ti < rule.target_protocols.len()
                    invariant
                        ri < self.rules@.len(),
                        ti <= ts.len(),
                        rule == &self.rules[ri as int],
                        ts == rule.target_protocols@,
                        rule_fires(*rule, message),
                        self.rules == old(self).rules,
                        self.protocol_handlers == old(self).protocol_handlers,
                        hs == self.handlers_seq(),
                        all == deliveries(self.rules@, hs, message),
                        len == message.payload@.len() as u64,
                        s0 == stats_bumped(old(self).stats_seq(), message.protocol, StatUpdate::Received, len),
                        stats_keys_unique(old(self).stats_seq()) ==> stats_keys_unique(s0),
                        self.metrics.messages_routed == old(self).metrics.messages_routed,
                        self.metrics.messages_dropped == old(self).metrics.messages_dropped,
                        base == deliveries(self.rules@.take(ri as int), hs, message),
                        done == base + tagged(served_targets(ts.take(ti as int), hs), rule.transformation),
                        outs.len() == done.len(),
                log.len() == done.len(),
                outcomes(log) == outs,
                self.sent@ == old(self).sent@ + log,
                forall|i: int|
                    0 <= i < log.len() ==> (#[trigger] log[i]).0 == done[i].0 && delivered_with(
                        message,
                        done[i].1,
                        now@,
                        log[i].1,
                    ),
                is_decimal_numeral(now@),
                        forall|j: int| 0 <= j < done.len() ==> transformation_valid(#[trigger] done[j].1),
                        self.metrics.protocol_stats@ == after_deliveries(s0, done, len, outs),
                        routed == outs.contains(true),
                    decreases ts.len() - ti,
                {
                    let target = rule.target_protocols[ti];
                    proof {
                        assert(ts.take(ti + 1).drop_last() =~= ts.take(ti as int));
                        assert(ts.take(ti + 1).last() == target);
                    }
                    match self.find_handler(target) {
                        Some(h) => {
                            proof {
                                assert(hs[h as int] == target);
                                assert(tagged(served_targets(ts.take(ti + 1), hs), rule.transformation)
                                    =~= tagged(served_targets(ts.take(ti as int), hs), rule.transformation).push((target, rule.transformation)));
                                assert(base + tagged(served_targets(ts.take(ti + 1), hs), rule.transformation)
                                    =~= done.push((target, rule.transformation)));
                            }
                            let mut copy = copy_message(&message);
                            match &rule.transformation {
                                Some(t) => {
                                    match apply_transformation_at(copy, t, now.as_str()) {
                                        Ok(m) => {
                                            proof {
                                                assert(rule.transformation == Some(*t));
                                                lemma_delivered_with_copy(copy, message, rule.transformation, now@, m);
                                            }
                                            copy = m;
                                        },
                                        Err(e) => {
                                            proof {
                                                let k = done.len() as int;
                                                let next = done.push((target, rule.transformation));
                                                lemma_served_prefix(ts, ti + 1, hs);
                                                lemma_deliveries_prefix(self.rules@, ri + 1, hs, message);
                                                let full = deliveries(self.rules@.take(ri + 1), hs, message);
                                                assert(self.rules@.take(ri + 1).drop_last() =~= self.rules@.take(ri as int));
                                                assert(self.rules@.take(ri + 1).last() == self.rules@[ri as int]);
                                                assert(full == base + tagged(served_targets(ts, hs), rule.transformation));
                                                assert(next.is_prefix_of(full)) by {
                                                    let sa = served_targets(ts.take(ti + 1), hs);
                                                    let sb = served_targets(ts, hs);
                                                    assert forall|x: int| 0 <= x < next.len() implies #[trigger] next[x] == full[x] by {
                                                        if x >= base.len() {
                                                            assert(sa[x - base.len()] == sb[x - base.len()]);
                                                        }
                                                    }
                                                }
                                                lemma_prefix_push(done, (target, rule.transformation), full, all);
                                                assert(after_deliveries(s0, all.take(k), len, outs) == self.stats_seq());
                                                assert(all == deliveries(old(self).rules_seq(), old(self).handlers_seq(), message));
                                                assert(all[k].1 == rule.transformation);
                                                lemma_after_deliveries_keys(s0, done, len, outs);
                                                assert(rule.transformation == Some(*t));
                                                assert(transformation_named(t@) is None);
                                                assert forall|j: int| 0 <= j < k implies transformation_valid(#[trigger] all[j].1) by {
                                                    assert(all.take(k)[j] == all[j]);
                                                    assert(done[j] == all[j]);
                                                }
                                                assert(all.take(k) == done);
                                                assert(self.sent@.skip(old(self).sent@.len() as int) =~= log);
                                                assert(old(self).sent@.is_prefix_of(self.sent@));
                                                assert(self.protocol_handlers@ == old(self).protocol_handlers@);
                                                assert(is_decimal_numeral(now@));
                                            }
                                            return Err(e);
                                        },
                                    }
                                },
                                None => {},
                            }
                            let ghost delivered = copy;
                            let sent = dispatch(&self.protocol_handlers[h].1, copy);
                            self.sent = Ghost(self.sent@.push((target, delivered, sent)));
                            if sent {
                                self.metrics.record(target, StatUpdate::Sent, len);
                                routed = true;
                            } else {
                                self.metrics.record(target, StatUpdate::Failed, len);
                            }
                            proof {
                                let d2 = done.push((target, rule.transformation));
                                let o2 = outs.push(sent);
                                assert(d2.drop_last() =~= done);
                                assert(o2.drop_last() =~= outs);
                                if sent {
                                    assert(o2[o2.len() - 1] == true);
                                } else if o2.contains(true) {
                                    let w = choose|w: int| 0 <= w < o2.len() && o2[w] == true;
                                    assert(outs[w] == true);
                                }
                                if outs.contains(true) {
                                    let w = choose|w: int| 0 <= w < outs.len() && outs[w] == true;
                                    assert(o2[w] == true);
                                }
                                let l2 = log.push((target, delivered, sent));
                                assert(outcomes(l2) =~= o2);
                                assert(self.sent@ =~= old(self).sent@ + l2);
                                done = d2;
                                outs = o2;
                                log = l2;
                            }
                        },
                        None => {
                            proof {
                                assert(served_targets(ts.take(ti + 1), hs) == served_targets(ts.take(ti as int), hs));
                            }
                        },
                    }
                    ti = ti + 1;
                }
                proof {
                    assert(ts.take(ti as int) =~= ts);
                }
            }
            ri = ri + 1;
        }
        proof {
            assert(self.rules@.take(ri as int) =~= self.rules@);
        }
        self.metrics.record_outcome(routed);
        proof {
            assert(after_deliveries(s0, done, len, outs) == self.stats_seq());
            lemma_after_deliveries_keys(s0, done, len, outs);
            assert(all == deliveries(old(self).rules_seq(), old(self).handlers_seq(), message));
            assert(done == all);
            assert(self.routed() == routed_after(old(self).routed(), outs));
            assert(self.dropped() == dropped_after(old(self).dropped(), outs));
            assert(self.sent@.skip(old(self).sent@.len() as int) =~= log);
            assert(old(self).sent@.is_prefix_of(self.sent@));
            assert(self.protocol_handlers@ == old(self).protocol_handlers@);
            assert(is_decimal_numeral(now@));
        }
        Ok(())
    }

    /// The identifiers of the rules, in order.
    pub fn rule_ids(&self) -> (r: Vec<String>)
        ensures
            r@.len() == self.rules_seq().len(),
            forall|i: int| 0 <= i < r@.len() ==> #[trigger] r@[i]@ == self.rules_seq()[i].id@,
    {
        let mut r: Vec<String> = Vec::new();
        let mut i: usize = 0;
        while i < self.rules.len()
            invariant
                i <= self.rules@.len(),
                r@.len() == i,
                forall|j: int| 0 <= j < i ==> #[trigger] r@[j]@ == self.rules@[j].id@,
            decreases self.rules@.len() - i,
        {
            r.push(self.rules[i].id.clone());
            i = i + 1;
        }
        r
    }

    /// Whether `p` has a handler.
    pub fn has_handler(&self, p: Protocol) -> (r: bool)
        ensures
            r == self.handlers_seq().contains(p),
    {
        match self.find_handler(p) {
            Some(i) => {
                assert(self.handlers_seq()[i as int] == p);
                true
            },
            None => false,
        }
    }

    /// A copy of the metrics as they stand.
    pub fn get_metrics(&self) -> (r: Result<RouterMetrics, RouterError>)
        ensures
            r matches Ok(m) && m.messages_routed == self.routed() && m.messages_dropped
                == self.dropped() && m.protocol_stats@ == self.stats_seq(),
    {
        Ok(self.metrics.snapshot())
    }
}

/// Removing rules keeps the identifiers unique, and every rule left was in
/// the list before.
pub proof fn lemma_without_unique(rules: Seq<RouteRule>, id: Seq<char>)
    ensures
        forall|i: int|
            0 <= i < rules_without(rules, id).len() ==> exists|j: int|
                0 <= j < rules.len() && #[trigger] rules_without(rules, id)[i] == rules[j],
        rule_ids_unique(rules) ==> rule_ids_unique(rules_without(rules, id)),
    decreases rules.len(),
{
    if rules.len() > 0 {
        let d = rules.drop_last();
        lemma_without_unique(d, id);
        let rest = rules_without(d, id);
        let w = rules_without(rules, id);
        assert forall|i: int| 0 <= i < w.len() implies exists|j: int|
            0 <= j < rules.len() && #[trigger] w[i] == rules[j] by {
            if i < rest.len() {
                assert(w[i] == rest[i]);
                let j = choose|j: int| 0 <= j < d.len() && #[trigger] rest[i] == d[j];
                assert(rules[j] == d[j]);
            } else {
                assert(w[i] == rules[rules.len() - 1]);
            }
        }
        if rule_ids_unique(rules) {
            assert(rule_ids_unique(d));
            assert forall|a: int, b: int| 0 <= a < b < w.len() implies w[a].id@ != w[b].id@ by {
                if b < rest.len() {
                    assert(w[a] == rest[a] && w[b] == rest[b]);
                } else {
                    assert(w[a] == rest[a]);
                    let j = choose|j: int| 0 <= j < d.len() && #[trigger] rest[a] == d[j];
                    assert(rules[j] == d[j]);
                    assert(w[b] == rules[rules.len() - 1]);
                }
            }
        }
    }
}

/// Where `done` followed by `x` is a prefix of `mid`, itself a prefix of
/// `all`, `all` begins with `done` and then holds `x`.
pub proof fn lemma_prefix_push<A>(done: Seq<A>, x: A, mid: Seq<A>, all: Seq<A>)
    requires
        done.push(x).is_prefix_of(mid),
        mid.is_prefix_of(all),
    ensures
        done.len() < all.len(),
        all.take(done.len() as int) == done,
        all[done.len() as int] == x,
{
    let k = done.len() as int;
    assert(done.push(x)[k] == mid[k]);
    assert forall|i: int| 0 <= i < k implies #[trigger] all.take(k)[i] == done[i] by {
        assert(done.push(x)[i] == mid[i]);
        assert(mid[i] == all[i]);
    }
    assert(all.take(k) =~= done);
}

/// Counting deliveries changes no protocol of the table.
pub proof fn lemma_after_deliveries_keys(
    s: Seq<(Protocol, ProtocolStats)>,
    ds: Seq<(Protocol, Option<String>)>,
    len: u64,
    outs: Seq<bool>,
)
    ensures
        after_deliveries(s, ds, len, outs).len() == s.len(),
        forall|i: int| 0 <= i < s.len() ==> (#[trigger] after_deliveries(s, ds, len, outs)[i]).0 == s[i].0,
        stats_keys_unique(s) ==> stats_keys_unique(after_deliveries(s, ds, len, outs)),
    decreases ds.len(),
{
    if ds.len() > 0 {
        let prev = after_deliveries(s, ds.drop_last(), len, outs.drop_last());
        lemma_after_deliveries_keys(s, ds.drop_last(), len, outs.drop_last());
        lemma_stats_bumped_keys(prev, ds.last().0, outcome_update(outs.last()), len);
    }
}

/// Counting an event changes no protocol of the table.
pub proof fn lemma_stats_bumped_keys(s: Seq<(Protocol, ProtocolStats)>, p: Protocol, u: StatUpdate, len: u64)
    ensures
        stats_bumped(s, p, u, len).len() == s.len(),
        forall|i: int| 0 <= i < s.len() ==> (#[trigger] stats_bumped(s, p, u, len)[i]).0 == s[i].0,
        stats_keys_unique(s) ==> stats_keys_unique(stats_bumped(s, p, u, len)),
{
    let b = stats_bumped(s, p, u, len);
    assert forall|i: int| 0 <= i < s.len() implies #[trigger] b[i].0 == s[i].0 by {}
}

/// The served targets of a prefix of `ts` are a prefix of those of `ts`.
pub proof fn lemma_served_prefix(ts: Seq<Protocol>, n: int, handlers: Seq<Protocol>)
    requires
        0 <= n <= ts.len(),
    ensures
        served_targets(ts.take(n), handlers).is_prefix_of(served_targets(ts, handlers)),
    decreases ts.len(),
{
    if n == ts.len() {
        assert(ts.take(n) =~= ts);
    } else {
        let d = ts.drop_last();
        assert(ts.take(n) =~= d.take(n));
        lemma_served_prefix(d, n, handlers);
    }
}

/// The deliveries of a prefix of `rules` are a prefix of those of `rules`.
pub proof fn lemma_deliveries_prefix(rules: Seq<RouteRule>, n: int, handlers: Seq<Protocol>, m: Message)
    requires
        0 <= n <= rules.len(),
    ensures
        deliveries(rules.take(n), handlers, m).is_prefix_of(deliveries(rules, handlers, m)),
    decreases rules.len(),
{
    if n == rules.len() {
        assert(rules.take(n) =~= rules);
    } else {
        let d = rules.drop_last();
        assert(rules.take(n) =~= d.take(n));
        lemma_deliveries_prefix(d, n, handlers, m);
    }
}

/// Without a rule of identifier `id`, removing it leaves the list as it is.
pub proof fn lemma_without_absent(rules: Seq<RouteRule>, id: Seq<char>)
    requires
        !has_rule(rules, id),
    ensures
        rules_without(rules, id) == rules,
    decreases rules.len(),
{
    if rules.len() > 0 {
        let d = rules.drop_last();
        assert(!has_rule(d, id)) by {
            if has_rule(d, id) {
                let j = choose|j: int| 0 <= j < d.len() && #[trigger] d[j].id@ == id;
                assert(rules[j] == d[j]);
            }
        }
        lemma_without_absent(d, id);
        assert(rules.last() == rules[rules.len() - 1]);
        assert(d.push(rules.last()) =~= rules);
    }
}

} // verus!
