use vstd::prelude::*;
use crate::pairs::{
    Pairs, pairs_view, keys_unique, pairs_map, find_key, lemma_pairs_map_lookup,
    lemma_pairs_map_absent, lemma_pairs_map_transform,
};
use crate::labels::{
    PortForwardRuleSpec, group_labels, grouped, rules_view, rules_wf, ends_with, str_ends_with,
    label_accepted, rule_part, prop_part, is_reserved, first_dot, find_dot, DEFAULT_PREFIX,
};
use crate::firewall::{FirewallSourceNatRulesAPI, DesiredRule, injected, rule_description};
use crate::tracker::AppliedStateTracker;

verus! {

/// A running container as the inventory reports it.
pub struct ContainerSnapshot {
    pub id: String,
    pub names: Vec<String>,
    pub labels: Pairs,
}

impl ContainerSnapshot {
    /// No label key occurs twice.
    pub open spec fn wf(&self) -> bool {
        keys_unique(pairs_view(self.labels@))
    }

    pub open spec fn label_map(&self) -> Map<Seq<char>, Seq<char>> {
        pairs_map(pairs_view(self.labels@))
    }
}

/// A DNS host override to be created: `hostname` resolves to `target_ip`.
pub struct DesiredHostOverride {
    pub hostname: String,
    pub target_ip: String,
}

/// The host name that a container's labels ask for: the `caddy` label, when it ends with
/// the local domain suffix.
pub open spec fn desired_hostname(labels: Map<Seq<char>, Seq<char>>, suffix: Seq<char>) -> Option<
    Seq<char>,
> {
    if labels.contains_key("caddy"@) && ends_with(labels["caddy"@], suffix) {
        Some(labels["caddy"@])
    } else {
        None
    }
}

/// The rules that a container's labels ask for, by rule number, each with its
/// system-set properties in place.
pub open spec fn desired_rule_map(
    labels: Seq<(Seq<char>, Seq<char>)>,
    prefix: Seq<char>,
    container_id: Seq<char>,
    wan_interface: Seq<char>,
    local_ip: Seq<char>,
) -> Map<Seq<char>, Map<Seq<char>, Seq<char>>> {
    let g = grouped(labels, prefix);
    Map::new(
        |r: Seq<char>| g.contains_key(r),
        |r: Seq<char>| injected(g[r], container_id, r, wan_interface, local_ip),
    )
}

/// Desired rules as (rule number, properties) pairs.
pub open spec fn desired_rules_view(v: Seq<DesiredRule>) -> Seq<(Seq<char>, Map<Seq<char>, Seq<char>>)> {
    v.map_values(|d: DesiredRule| d.rule@)
}

/// `d` is the request built from group `g` of container `container_id`.
pub open spec fn built_from(
    d: DesiredRule,
    g: PortForwardRuleSpec,
    container_id: Seq<char>,
    wan_interface: Seq<char>,
    local_ip: Seq<char>,
) -> bool {
    &&& d.wf()
    &&& d.description@ == rule_description(container_id, d.rule.rule_number@)
    &&& d.rule@ == (g@.0, injected(g@.1, container_id, g@.0, wan_interface, local_ip))
}

/// A create is attempted only for a key that is not yet known to be applied.
pub open spec fn should_attempt(applied: Set<Seq<char>>, key: Seq<char>) -> bool {
    !applied.contains(key)
}

/// The applied keys after the outcome of a create for `key`: the key is recorded only
/// when the create succeeded.
pub open spec fn after_outcome(applied: Set<Seq<char>>, key: Seq<char>, created: bool) -> Set<
    Seq<char>,
> {
    if created {
        applied.insert(key)
    } else {
        applied
    }
}

/// The applied keys after a cycle over `keys`, where `created[i]` is the outcome that a
/// create of `keys[i]` would have.
pub open spec fn applied_after(applied: Set<Seq<char>>, keys: Seq<Seq<char>>, created: Seq<bool>) -> Set<
    Seq<char>,
>
    decreases keys.len(),
{
    if keys.len() == 0 {
        applied
    } else {
        let prev = applied_after(applied, keys.drop_last(), created.drop_last());
        if should_attempt(prev, keys.last()) {
            after_outcome(prev, keys.last(), created.last())
        } else {
            prev
        }
    }
}

/// The creates that a cycle over `keys` attempts, in order.
pub open spec fn attempts(applied: Set<Seq<char>>, keys: Seq<Seq<char>>, created: Seq<bool>) -> Seq<
    Seq<char>,
>
    decreases keys.len(),
{
    if keys.len() == 0 {
        Seq::empty()
    } else {
        let prev = attempts(applied, keys.drop_last(), created.drop_last());
        if should_attempt(applied_after(applied, keys.drop_last(), created.drop_last()), keys.last()) {
            prev.push(keys.last())
        } else {
            prev
        }
    }
}

/// Outcomes of a cycle in which every create succeeds.
pub open spec fn all_succeed(n: nat) -> Seq<bool> {
    Seq::new(n, |i: int| true)
}

/// Derives the desired state from container labels.
pub struct Reconciler {
    pub firewall: FirewallSourceNatRulesAPI,
    pub local_domain_suffix: String,
    pub label_prefix: String,
}

impl Reconciler {
    pub fn new(wan_interface: String, local_ip_address: String, local_domain_suffix: String) -> (r:
        Reconciler)
        ensures
            r.firewall.wan_interface@ == wan_interface@,
            r.firewall.local_ip_address@ == local_ip_address@,
            r.local_domain_suffix@ == local_domain_suffix@,
            r.label_prefix@ == DEFAULT_PREFIX@,
    {
        Reconciler {
            firewall: FirewallSourceNatRulesAPI::new(wan_interface, local_ip_address),
            local_domain_suffix,
            label_prefix: DEFAULT_PREFIX.to_owned(),
        }
    }

    /// The host override that a container asks for, if any.
    pub fn desired_host(&self, c: &ContainerSnapshot) -> (r: Option<DesiredHostOverride>)
        requires
            c.wf(),
        ensures
            match r {
                Some(h) => desired_hostname(c.label_map(), self.local_domain_suffix@) == Some(
                    h.hostname@,
                ) && h.target_ip@ == self.firewall.local_ip_address@,
                None => desired_hostname(c.label_map(), self.local_domain_suffix@) == None::<
                    Seq<char>,
                >,
            },
    {
        let ghost s = pairs_view(c.labels@);
        match find_key(&c.labels, "caddy") {
            Some(i) => {
                proof {
                    assert(s[i as int].0 == "caddy"@);
                    lemma_pairs_map_lookup(s, i as int);
                }
                if str_ends_with(c.labels[i].1.as_str(), self.local_domain_suffix.as_str()) {
                    Some(
                        DesiredHostOverride {
                            hostname: c.labels[i].1.clone(),
                            target_ip: self.firewall.local_ip_address.clone(),
                        },
                    )
                } else {
                    None
                }
            },
            None => {
                proof {
                    assert forall|j: int| 0 <= j < s.len() implies s[j].0 != "caddy"@ by {
                        assert(s[j].0 == c.labels@[j].0@);
                    }
                    lemma_pairs_map_absent(s, "caddy"@);
                }
                None
            },
        }
    }

    /// The port-forward rules that a container asks for, one per rule number, each
    /// identified by `"{container id}:{rule number}"`.
    pub fn desired_rules(&self, c: &ContainerSnapshot) -> (r: Vec<DesiredRule>)
        ensures
            keys_unique(desired_rules_view(r@)),
            forall|i: int|
                0 <= i < r@.len() ==> #[trigger] r@[i].wf() && r@[i].description@
                    == rule_description(c.id@, r@[i].rule.rule_number@),
            pairs_map(desired_rules_view(r@)) == desired_rule_map(
                pairs_view(c.labels@),
                self.label_prefix@,
                c.id@,
                self.firewall.wan_interface@,
                self.firewall.local_ip_address@,
            ),
    {
        let groups = group_labels(&c.labels, self.label_prefix.as_str());
        let ghost cid = c.id@;
        let ghost wan = self.firewall.wan_interface@;
        let ghost ip = self.firewall.local_ip_address@;
        let mut out: Vec<DesiredRule> = Vec::new();
        let mut i: usize = 0;
        while i < groups.len()
            invariant
                i <= groups@.len(),
                out@.len() == i,
                rules_wf(groups@),
                cid == c.id@,
                wan == self.firewall.wan_interface@,
                ip == self.firewall.local_ip_address@,
                forall|j: int| 0 <= j < i ==> built_from(#[trigger] out@[j], groups@[j], cid, wan, ip),
            decreases groups@.len() - i,
        {
            assert(groups@[i as int].wf());
            let d = self.firewall.add_firewall_source_nat_rule(c.id.as_str(), &groups[i]);
            assert(built_from(d, groups@[i as int], cid, wan, ip));
            let ghost before = out@;
            out.push(d);
            assert forall|j: int| 0 <= j < i + 1 implies built_from(
                #[trigger] out@[j],
                groups@[j],
                cid,
                wan,
                ip,
            ) by {
                if j < i {
                    assert(out@[j] == before[j]);
                }
            }
            i = i + 1;
        }
        proof {
            let gs = rules_view(groups@);
            let ds = desired_rules_view(out@);
            let f = |r: Seq<char>, m: Map<Seq<char>, Seq<char>>| injected(m, cid, r, wan, ip);
            assert forall|j: int| 0 <= j < gs.len() implies #[trigger] ds[j] == (
                gs[j].0,
                f(gs[j].0, gs[j].1),
            ) by {
                assert(built_from(out@[j], groups@[j], cid, wan, ip));
            }
            lemma_pairs_map_transform(gs, ds, f);
            assert forall|a: int, b: int|
                0 <= a < ds.len() && 0 <= b < ds.len() && a != b implies ds[a].0 != ds[b].0 by {
                assert(built_from(out@[a], groups@[a], cid, wan, ip));
                assert(built_from(out@[b], groups@[b], cid, wan, ip));
                assert(ds[a].0 == gs[a].0);
                assert(ds[b].0 == gs[b].0);
            }
            assert forall|j: int| 0 <= j < out@.len() implies #[trigger] out@[j].wf()
                && out@[j].description@ == rule_description(c.id@, out@[j].rule.rule_number@) by {
                assert(built_from(out@[j], groups@[j], cid, wan, ip));
            }
            assert(pairs_map(ds) =~= desired_rule_map(
                pairs_view(c.labels@),
                self.label_prefix@,
                cid,
                wan,
                ip,
            ));
        }
        out
    }
}

/// Whether a create of the host override is due: its host name is not yet applied.
pub fn host_needs_create(tracker: &AppliedStateTracker, h: &DesiredHostOverride) -> (r: bool)
    ensures
        r == should_attempt(tracker.hostnames(), h.hostname@),
{
    !tracker.has_hostname(h.hostname.as_str())
}

/// Takes in the outcome of a create of the host override.
pub fn record_host_outcome(tracker: &mut AppliedStateTracker, h: &DesiredHostOverride, created: bool)
    ensures
        final(tracker).hostnames() == after_outcome(old(tracker).hostnames(), h.hostname@, created),
        final(tracker).descriptions() == old(tracker).descriptions(),
{
    if created {
        tracker.record_hostname(h.hostname.clone());
    }
}

/// Whether a create of the rule is due: its description is not yet applied.
pub fn rule_needs_create(tracker: &AppliedStateTracker, d: &DesiredRule) -> (r: bool)
    ensures
        r == should_attempt(tracker.descriptions(), d.description@),
{
    !tracker.has_description(d.description.as_str())
}

/// Takes in the outcome of a create of the rule.
pub fn record_rule_outcome(tracker: &mut AppliedStateTracker, d: &DesiredRule, created: bool)
    ensures
        final(tracker).descriptions() == after_outcome(
            old(tracker).descriptions(),
            d.description@,
            created,
        ),
        final(tracker).hostnames() == old(tracker).hostnames(),
{
    if created {
        tracker.record_description(d.description.clone());
    }
}

/// A host name as the DNS resolver's host overrides hold it: the host before the first
/// '.', and the domain after it.
pub fn host_and_domain(hostname: &str) -> (r: (String, String))
    ensures
        ({
            let h = hostname@;
            let d = first_dot(h, 0);
            if d < h.len() {
                r.0@ == h.subrange(0, d) && r.1@ == h.subrange(d + 1, h.len() as int)
            } else {
                r.0@ == h && r.1@ == Seq::<char>::empty()
            }
        }),
{
    let n = hostname.unicode_len();
    let d = find_dot(hostname, n, 0);
    if d < n {
        (hostname.substring_char(0, d).to_owned(), hostname.substring_char(d + 1, n).to_owned())
    } else {
        (hostname.to_owned(), String::new())
    }
}

/// The identity key of a host override found on the resolver: `host.domain`, or the
/// host alone where the domain is empty.
pub fn host_override_key(host: &str, domain: &str) -> (r: String)
    ensures
        r@ == if domain@.len() == 0 {
            host@
        } else {
            host@ + "."@ + domain@
        },
{
    let mut r = host.to_owned();
    if domain.unicode_len() > 0 {
        r.append(".");
        r.append(domain);
    }
    r
}

/// Splitting a host name that holds a '.' and joining the parts gives it back.
pub proof fn lemma_host_key_round_trip(hostname: Seq<char>)
    requires
        first_dot(hostname, 0) < hostname.len() - 1,
    ensures
        ({
            let d = first_dot(hostname, 0);
            hostname.subrange(0, d) + "."@ + hostname.subrange(d + 1, hostname.len() as int)
                == hostname
        }),
{
    let d = first_dot(hostname, 0);
    lemma_first_dot_is_dot(hostname, 0);
    reveal_strlit(".");
    assert("."@.len() == 1 && "."@[0] == '.');
    assert(hostname.subrange(0, d) + "."@ + hostname.subrange(d + 1, hostname.len() as int)
        =~= hostname);
}

proof fn lemma_first_dot_is_dot(s: Seq<char>, from: int)
    requires
        0 <= from,
        first_dot(s, from) < s.len(),
    ensures
        from <= first_dot(s, from),
        s[first_dot(s, from)] == '.',
    decreases s.len() - from,
{
    if from < s.len() && s[from] != '.' {
        lemma_first_dot_is_dot(s, from + 1);
    }
}

/// The applied keys together with the keys of a cycle.
pub open spec fn with_keys(applied: Set<Seq<char>>, keys: Seq<Seq<char>>) -> Set<Seq<char>> {
    Set::new(|k: Seq<char>| applied.contains(k) || keys.contains(k))
}

proof fn lemma_contains_last(keys: Seq<Seq<char>>, k: Seq<char>)
    requires
        keys.len() > 0,
    ensures
        keys.contains(k) <==> keys.drop_last().contains(k) || k == keys.last(),
{
    let ks = keys.drop_last();
    if ks.contains(k) {
        let i = choose|i: int| 0 <= i < ks.len() && ks[i] == k;
        assert(keys[i] == k);
    }
    if k == keys.last() {
        assert(keys[keys.len() - 1] == k);
    }
    if keys.contains(k) {
        let i = choose|i: int| 0 <= i < keys.len() && keys[i] == k;
        if i < keys.len() - 1 {
            assert(ks[i] == k);
        }
    }
}

/// A cycle keeps every applied key and records only keys of the cycle.
proof fn lemma_applied_bounds(
    applied: Set<Seq<char>>,
    keys: Seq<Seq<char>>,
    created: Seq<bool>,
    k: Seq<char>,
)
    ensures
        applied.contains(k) ==> applied_after(applied, keys, created).contains(k),
        applied_after(applied, keys, created).contains(k) ==> applied.contains(k) || keys.contains(
            k,
        ),
    decreases keys.len(),
{
    if keys.len() > 0 {
        lemma_applied_bounds(applied, keys.drop_last(), created.drop_last(), k);
        lemma_contains_last(keys, k);
    }
}

proof fn lemma_all_succeed_applied(applied: Set<Seq<char>>, keys: Seq<Seq<char>>)
    ensures
        applied_after(applied, keys, all_succeed(keys.len())) == with_keys(applied, keys),
    decreases keys.len(),
{
    if keys.len() == 0 {
        assert(with_keys(applied, keys) =~= applied);
    } else {
        let ks = keys.drop_last();
        assert(all_succeed(keys.len()).drop_last() =~= all_succeed(ks.len()));
        lemma_all_succeed_applied(applied, ks);
        assert forall|k: Seq<char>| #[trigger] with_keys(applied, keys).contains(k) == with_keys(
            applied,
            ks,
        ).insert(keys.last()).contains(k) by {
            lemma_contains_last(keys, k);
        }
        assert(with_keys(applied, keys) =~= with_keys(applied, ks).insert(keys.last()));
        assert(with_keys(applied, ks).contains(keys.last()) ==> with_keys(applied, ks).insert(
            keys.last(),
        ) =~= with_keys(applied, ks));
    }
}

proof fn lemma_all_succeed_attempts(applied: Set<Seq<char>>, keys: Seq<Seq<char>>)
    ensures
        attempts(applied, keys, all_succeed(keys.len())).no_duplicates(),
        forall|k: Seq<char>|
            #[trigger] attempts(applied, keys, all_succeed(keys.len())).contains(k) <==> keys.contains(
                k,
            ) && !applied.contains(k),
    decreases keys.len(),
{
    let a = attempts(applied, keys, all_succeed(keys.len()));
    if keys.len() > 0 {
        let ks = keys.drop_last();
        let l = keys.last();
        assert(all_succeed(keys.len()).drop_last() =~= all_succeed(ks.len()));
        lemma_all_succeed_attempts(applied, ks);
        lemma_all_succeed_applied(applied, ks);
        let prev = attempts(applied, ks, all_succeed(ks.len()));
        if should_attempt(with_keys(applied, ks), l) {
            assert(a == prev.push(l));
            assert(!prev.contains(l));
            assert forall|i: int, j: int| 0 <= i < a.len() && 0 <= j < a.len() && i != j implies a[i]
                != a[j] by {
                if i < prev.len() && j < prev.len() {
                    assert(a[i] == prev[i] && a[j] == prev[j]);
                } else if i < prev.len() {
                    assert(a[i] == prev[i]);
                } else {
                    assert(a[j] == prev[j]);
                }
            }
            assert forall|k: Seq<char>| #[trigger] a.contains(k) <==> keys.contains(k)
                && !applied.contains(k) by {
                lemma_contains_last(keys, k);
                lemma_contains_last(a, k);
                assert(a.drop_last() =~= prev);
            }
        } else {
            assert(a == prev);
            assert forall|k: Seq<char>| #[trigger] a.contains(k) <==> keys.contains(k)
                && !applied.contains(k) by {
                lemma_contains_last(keys, k);
            }
        }
    }
}

proof fn lemma_all_applied_no_attempts(
    applied: Set<Seq<char>>,
    keys: Seq<Seq<char>>,
    created: Seq<bool>,
)
    requires
        forall|i: int| 0 <= i < keys.len() ==> applied.contains(keys[i]),
    ensures
        applied_after(applied, keys, created) == applied,
        attempts(applied, keys, created) == Seq::<Seq<char>>::empty(),
    decreases keys.len(),
{
    if keys.len() > 0 {
        let ks = keys.drop_last();
        assert forall|i: int| 0 <= i < ks.len() implies applied.contains(ks[i]) by {
            assert(ks[i] == keys[i]);
        }
        lemma_all_applied_no_attempts(applied, ks, created.drop_last());
        assert(applied.contains(keys[keys.len() - 1]));
    }
}

/// Running cycles over the same desired keys, with every create succeeding: the first
/// cycle creates each key that was not applied exactly once, and afterwards every key is
/// applied; a later cycle, whatever its outcomes, attempts no create and changes nothing,
/// so any number of further cycles issue no create.
pub proof fn lemma_cycle_idempotent(applied: Set<Seq<char>>, keys: Seq<Seq<char>>, later: Seq<bool>)
    ensures
        attempts(applied, keys, all_succeed(keys.len())).no_duplicates(),
        forall|k: Seq<char>|
            #[trigger] attempts(applied, keys, all_succeed(keys.len())).contains(k) <==> keys.contains(
                k,
            ) && !applied.contains(k),
        applied_after(applied, keys, all_succeed(keys.len())) == with_keys(applied, keys),
        attempts(applied_after(applied, keys, all_succeed(keys.len())), keys, later) == Seq::<
            Seq<char>,
        >::empty(),
        applied_after(applied_after(applied, keys, all_succeed(keys.len())), keys, later)
            == applied_after(applied, keys, all_succeed(keys.len())),
{
    lemma_all_succeed_attempts(applied, keys);
    lemma_all_succeed_applied(applied, keys);
    let after = with_keys(applied, keys);
    assert forall|i: int| 0 <= i < keys.len() implies after.contains(keys[i]) by {
        assert(keys.contains(keys[i]));
    }
    lemma_all_applied_no_attempts(after, keys, later);
}

/// A failed create does not hold back the others: a key that is not applied, and that no
/// other item of the cycle shares, is attempted whatever the outcomes of the creates
/// before it.
pub proof fn lemma_failure_isolated(
    applied: Set<Seq<char>>,
    keys: Seq<Seq<char>>,
    created: Seq<bool>,
    j: int,
)
    requires
        0 <= j < keys.len(),
        !applied.contains(keys[j]),
        forall|i: int| 0 <= i < keys.len() && i != j ==> keys[i] != keys[j],
    ensures
        should_attempt(applied_after(applied, keys.take(j), created.take(j)), keys[j]),
{
    let ks = keys.take(j);
    lemma_applied_bounds(applied, ks, created.take(j), keys[j]);
    if ks.contains(keys[j]) {
        let i = choose|i: int| 0 <= i < ks.len() && ks[i] == keys[j];
        assert(ks[i] == keys[i]);
    }
}

proof fn lemma_grouped_not_reserved(
    labels: Seq<(Seq<char>, Seq<char>)>,
    prefix: Seq<char>,
    r: Seq<char>,
    p: Seq<char>,
)
    requires
        grouped(labels, prefix).contains_key(r),
        grouped(labels, prefix)[r].contains_key(p),
    ensures
        !is_reserved(p),
    decreases labels.len(),
{
    if labels.len() > 0 {
        let prev = grouped(labels.drop_last(), prefix);
        let k = labels.last().0;
        if label_accepted(k, prefix) && rule_part(k) == r {
            if p != prop_part(k) {
                lemma_grouped_not_reserved(labels.drop_last(), prefix, r, p);
            }
        } else {
            lemma_grouped_not_reserved(labels.drop_last(), prefix, r, p);
        }
    }
}

/// A label never sets a reserved property: the properties that labels give a rule hold
/// none, and the description of every desired rule is the computed identity key.
pub proof fn lemma_reserved_rejected(
    labels: Seq<(Seq<char>, Seq<char>)>,
    prefix: Seq<char>,
    container_id: Seq<char>,
    wan_interface: Seq<char>,
    local_ip: Seq<char>,
    r: Seq<char>,
)
    requires
        grouped(labels, prefix).contains_key(r),
    ensures
        forall|p: Seq<char>| #[trigger]
            grouped(labels, prefix)[r].contains_key(p) ==> !is_reserved(p),
        desired_rule_map(labels, prefix, container_id, wan_interface, local_ip)[r]["description"@]
            == rule_description(container_id, r),
{
    assert forall|p: Seq<char>| #[trigger]
        grouped(labels, prefix)[r].contains_key(p) implies !is_reserved(p) by {
        lemma_grouped_not_reserved(labels, prefix, r, p);
    }
}

} // verus!
