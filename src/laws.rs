use vstd::prelude::*;
use crate::metrics::{bumped, sat_add, stats_bumped, ProtocolStats, StatUpdate};
use crate::router::{
    after_deliveries, deliveries, dropped_after, enabled_only, has_rule, outcomes, routed_after,
    rule_fires, rules_after_add, rules_without, served_targets, tagged,
};
use crate::topic::{ends_with, single_star_at, starts_with, topic_match};
use crate::types::{Message, Protocol, RouteRule};

verus! {

/// A pattern without `*` matches exactly the identical topic.
pub proof fn lemma_literal_pattern(t: Seq<char>, p: Seq<char>)
    requires
        !p.contains('*'),
    ensures
        topic_match(t, p) == (t == p),
{
    assert(p != seq!['*']) by {
        if p =~= seq!['*'] {
            assert(p[0] == '*');
        }
    }
    assert forall|k: int| !single_star_at(p, k) by {
        if single_star_at(p, k) {
            assert(p[k] == '*');
        }
    }
}

/// The pattern `*` matches every topic.
pub proof fn lemma_star_matches_all(t: Seq<char>)
    ensures
        topic_match(t, seq!['*']),
{
}

/// A pattern with a single `*` matches every topic that starts with the text
/// before the star and ends with the text after it, even where the two overlap
/// in a topic shorter than both together.
pub proof fn lemma_single_wildcard(t: Seq<char>, prefix: Seq<char>, suffix: Seq<char>)
    requires
        !prefix.contains('*'),
        !suffix.contains('*'),
        starts_with(t, prefix),
        ends_with(t, suffix),
    ensures
        topic_match(t, prefix + seq!['*'] + suffix),
{
    let p = prefix + seq!['*'] + suffix;
    let k = prefix.len() as int;
    assert forall|i: int| 0 <= i < p.len() && i != k implies p[i] != '*' by {
        if i < k {
            assert(p[i] == prefix[i]);
        } else {
            assert(p[i] == suffix[i - k - 1]);
        }
    }
    assert(single_star_at(p, k));
    assert forall|k2: int| single_star_at(p, k2) implies k2 == k by {}
    assert(p.subrange(0, k) =~= prefix);
    assert(p.subrange(k + 1, p.len() as int) =~= suffix);
}

/// Adding a rule whose identifier was just added is rejected, and the list
/// keeps the first rule alone.
pub proof fn lemma_duplicate_add_rejected(rules: Seq<RouteRule>, first: RouteRule, second: RouteRule)
    requires
        !has_rule(rules, first.id@),
        second.id@ == first.id@,
    ensures
        has_rule(rules_after_add(rules, first), second.id@),
        rules_after_add(rules_after_add(rules, first), second) == rules.push(first),
{
    let r1 = rules.push(first);
    assert(r1[rules.len() as int].id@ == second.id@);
}

/// Removing an identifier that no rule has is rejected and leaves the list as
/// it is.
pub proof fn lemma_missing_rule_remove_rejected(rules: Seq<RouteRule>, id: Seq<char>)
    requires
        !has_rule(rules, id),
    ensures
        rules_without(rules, id) == rules,
{
    crate::router::lemma_without_absent(rules, id);
}

/// When no rule fires for a message, nothing is sent: the call's send log,
/// one entry per delivery, is empty, and the call counts one more dropped
/// message and no routed one.
pub proof fn lemma_unmatched_message_dropped(
    rules: Seq<RouteRule>,
    handlers: Seq<Protocol>,
    m: Message,
    sends: Seq<(Protocol, Message, bool)>,
    routed: u64,
    dropped: u64,
)
    requires
        forall|i: int| 0 <= i < rules.len() ==> !rule_fires(#[trigger] rules[i], m),
        sends.len() <= deliveries(rules, handlers, m).len(),
        dropped < u64::MAX,
    ensures
        deliveries(rules, handlers, m).len() == 0,
        sends.len() == 0,
        dropped_after(dropped, outcomes(sends)) == dropped + 1,
        routed_after(routed, outcomes(sends)) == routed,
{
    lemma_no_rule_fires(rules, handlers, m);
    assert(!outcomes(sends).contains(true));
}

proof fn lemma_no_rule_fires(rules: Seq<RouteRule>, handlers: Seq<Protocol>, m: Message)
    requires
        forall|i: int| 0 <= i < rules.len() ==> !rule_fires(#[trigger] rules[i], m),
    ensures
        deliveries(rules, handlers, m).len() == 0,
    decreases rules.len(),
{
    if rules.len() > 0 {
        let d = rules.drop_last();
        assert(!rule_fires(rules[rules.len() - 1], m));
        assert forall|i: int| 0 <= i < d.len() implies !rule_fires(#[trigger] d[i], m) by {
            assert(d[i] == rules[i]);
        }
        lemma_no_rule_fires(d, handlers, m);
    }
}

/// A disabled rule never fires, so routing sees only the enabled rules.
pub proof fn lemma_disabled_rules_never_fire(rules: Seq<RouteRule>, handlers: Seq<Protocol>, m: Message)
    ensures
        deliveries(rules, handlers, m) == deliveries(enabled_only(rules), handlers, m),
        forall|i: int| 0 <= i < rules.len() && !(#[trigger] rules[i]).enabled ==> !rule_fires(rules[i], m),
    decreases rules.len(),
{
    if rules.len() > 0 {
        let d = rules.drop_last();
        lemma_disabled_rules_never_fire(d, handlers, m);
        if rules.last().enabled {
            assert(enabled_only(rules).drop_last() =~= enabled_only(d));
        }
    }
}

/// Taking a disabled rule out of the list changes no delivery, so two
/// routers that differ only by it make the same sends, with the same
/// transformations, and count the same outcomes alike.
pub proof fn lemma_disabled_rule_removable(
    rs1: Seq<RouteRule>,
    r: RouteRule,
    rs2: Seq<RouteRule>,
    handlers: Seq<Protocol>,
    m: Message,
)
    requires
        !r.enabled,
    ensures
        deliveries(rs1 + seq![r] + rs2, handlers, m) == deliveries(rs1 + rs2, handlers, m),
    decreases rs2.len(),
{
    let with = rs1 + seq![r] + rs2;
    let without = rs1 + rs2;
    if rs2.len() == 0 {
        assert(with.drop_last() =~= rs1);
        assert(with.last() == r);
        assert(without =~= rs1);
    } else {
        let d = rs2.drop_last();
        lemma_disabled_rule_removable(rs1, r, d, handlers, m);
        assert(with.drop_last() =~= rs1 + seq![r] + d);
        assert(without.drop_last() =~= rs1 + d);
        assert(with.last() == rs2.last());
        assert(without.last() == rs2.last());
    }
}

/// A message matched by one rule with two different registered targets: the
/// two deliveries go to the two targets in order, and where both channels take
/// their copy the call counts as routed and each target's output counters
/// rise by one message and by the payload length.
pub proof fn lemma_two_target_fan_out(
    rule: RouteRule,
    handlers: Seq<Protocol>,
    m: Message,
    s: Seq<(Protocol, ProtocolStats)>,
    len: u64,
    routed: u64,
    dropped: u64,
    sends: Seq<(Protocol, Message, bool)>,
)
    requires
        sends.len() == 2,
        sends[0].2 && sends[1].2,
        rule_fires(rule, m),
        rule.target_protocols@.len() == 2,
        rule.target_protocols@[0] != rule.target_protocols@[1],
        handlers.contains(rule.target_protocols@[0]),
        handlers.contains(rule.target_protocols@[1]),
        routed < u64::MAX,
        forall|i: int|
            0 <= i < s.len() ==> (#[trigger] s[i]).1.messages_out < u64::MAX && s[i].1.bytes_out
                + len <= u64::MAX,
    ensures
        ({
            let t0 = rule.target_protocols@[0];
            let t1 = rule.target_protocols@[1];
            let ds = deliveries(seq![rule], handlers, m);
            let after = after_deliveries(s, ds, len, outcomes(sends));
            &&& ds == seq![(t0, rule.transformation), (t1, rule.transformation)]
            &&& routed_after(routed, outcomes(sends)) == routed + 1
            &&& dropped_after(dropped, outcomes(sends)) == dropped
            &&& after.len() == s.len()
            &&& forall|i: int|
                0 <= i < s.len() && (s[i].0 == t0 || s[i].0 == t1) ==> #[trigger] after[i] == (
                    s[i].0,
                    bumped(s[i].1, StatUpdate::Sent, len),
                )
            &&& forall|i: int|
                0 <= i < s.len() && (s[i].0 == t0 || s[i].0 == t1) ==> (#[trigger] after[i]).1.messages_out
                    == s[i].1.messages_out + 1 && after[i].1.bytes_out == s[i].1.bytes_out + len
            &&& forall|i: int|
                0 <= i < s.len() && s[i].0 != t0 && s[i].0 != t1 ==> #[trigger] after[i] == s[i]
        }),
{
    let ts = rule.target_protocols@;
    let t0 = ts[0];
    let t1 = ts[1];
    assert(ts.drop_last().drop_last() =~= Seq::<Protocol>::empty());
    assert(ts.drop_last() =~= seq![t0]);
    assert(served_targets(ts.drop_last().drop_last(), handlers) =~= Seq::<Protocol>::empty());
    assert(ts.drop_last().last() == t0);
    assert(served_targets(ts.drop_last(), handlers) =~= seq![t0]);
    assert(ts.last() == t1);
    assert(served_targets(ts, handlers) =~= seq![t0, t1]);
    assert(tagged(seq![t0, t1], rule.transformation) =~= seq![(t0, rule.transformation), (t1, rule.transformation)]);
    let rules = seq![rule];
    assert(rules.drop_last() =~= Seq::<RouteRule>::empty());
    let ds = deliveries(rules, handlers, m);
    assert(deliveries(rules.drop_last(), handlers, m) =~= Seq::empty());
    assert(rules.last() == rule);
    assert(ds =~= seq![(t0, rule.transformation), (t1, rule.transformation)]);
    let outs = outcomes(sends);
    assert(outs =~= seq![true, true]);
    assert(ds.drop_last() =~= seq![(t0, rule.transformation)]);
    assert(ds.drop_last().drop_last() =~= Seq::<(Protocol, Option<String>)>::empty());
    assert(outs.drop_last() =~= seq![true]);
    assert(outs.drop_last().drop_last() =~= Seq::<bool>::empty());
    assert(outs.contains(true)) by {
        assert(outs[0] == true);
    }
    let a0 = after_deliveries(s, ds.drop_last().drop_last(), len, outs.drop_last().drop_last());
    assert(a0 == s);
    let a1 = after_deliveries(s, ds.drop_last(), len, outs.drop_last());
    assert(a1 == stats_bumped(s, t0, StatUpdate::Sent, len));
    let a2 = after_deliveries(s, ds, len, outs);
    assert(a2 == stats_bumped(a1, t1, StatUpdate::Sent, len));
}

} // verus!
