use opnsense_reconciler::firewall::{DesiredRule, FirewallSourceNatRulesAPI};
use opnsense_reconciler::labels::{group_labels, parse_rule_key, PortForwardRuleSpec, DEFAULT_PREFIX};
use opnsense_reconciler::reconcile::{
    host_and_domain, host_override_key, host_needs_create, record_host_outcome, record_rule_outcome, rule_needs_create,
    ContainerSnapshot, Reconciler,
};
use opnsense_reconciler::tracker::AppliedStateTracker;

fn labels(pairs: &[(&str, &str)]) -> Vec<(String, String)> {
    pairs.iter().map(|(k, v)| (k.to_string(), v.to_string())).collect()
}

fn container(id: &str, pairs: &[(&str, &str)]) -> ContainerSnapshot {
    ContainerSnapshot { id: id.to_string(), names: vec![format!("/{}", id)], labels: labels(pairs) }
}

fn reconciler() -> Reconciler {
    Reconciler::new("wan".to_string(), "192.168.1.10".to_string(), ".local".to_string())
}

fn prop<'a>(props: &'a [(String, String)], key: &str) -> Option<&'a str> {
    props.iter().find(|(k, _)| k == key).map(|(_, v)| v.as_str())
}

fn sorted(props: &[(String, String)]) -> Vec<(String, String)> {
    let mut v = props.to_vec();
    v.sort();
    v
}

#[derive(Debug, PartialEq)]
enum Call {
    Host(String, String),
    Rule(Vec<(String, String)>),
}

/// One reconciliation cycle as the poll loop runs it; `fails` says which creates fail.
fn run_cycle(
    r: &Reconciler,
    tracker: &mut AppliedStateTracker,
    containers: &[ContainerSnapshot],
    fails: &dyn Fn(&Call) -> bool,
) -> Vec<Call> {
    let mut calls = Vec::new();
    for c in containers {
        if let Some(h) = r.desired_host(c) {
            if host_needs_create(tracker, &h) {
                let call = Call::Host(h.hostname.clone(), h.target_ip.clone());
                let ok = !fails(&call);
                calls.push(call);
                record_host_outcome(tracker, &h, ok);
            }
        }
        for d in r.desired_rules(c) {
            if rule_needs_create(tracker, &d) {
                let call = Call::Rule(sorted(&d.rule.properties));
                let ok = !fails(&call);
                calls.push(call);
                record_rule_outcome(tracker, &d, ok);
            }
        }
    }
    calls
}

fn never(_: &Call) -> bool {
    false
}

#[test]
fn description_is_container_id_and_rule_number() {
    let api = FirewallSourceNatRulesAPI::new("wan".to_string(), "10.0.0.2".to_string());
    let rule = PortForwardRuleSpec {
        rule_number: "0".to_string(),
        properties: labels(&[("protocol", "tcp")]),
    };
    let d: DesiredRule = api.add_firewall_source_nat_rule("c1", &rule);
    assert_eq!(d.description, "c1:0");
    assert_eq!(d.rule.rule_number, "0");
    assert_eq!(prop(&d.rule.properties, "description"), Some("c1:0"));
    assert_eq!(prop(&d.rule.properties, "interface"), Some("wan"));
    assert_eq!(prop(&d.rule.properties, "destination"), Some("10.0.0.2"));
    assert_eq!(prop(&d.rule.properties, "protocol"), Some("tcp"));
    assert_eq!(d.rule.properties.len(), 4);
}

#[test]
fn reserved_property_label_is_dropped() {
    let r = reconciler();
    let c = container(
        "c1",
        &[("port_forward.0.description", "x"), ("port_forward.0.protocol", "tcp")],
    );
    let rules = r.desired_rules(&c);
    assert_eq!(rules.len(), 1);
    assert_eq!(rules[0].description, "c1:0");
    assert_eq!(prop(&rules[0].rule.properties, "description"), Some("c1:0"));
    assert_eq!(prop(&rules[0].rule.properties, "protocol"), Some("tcp"));
}

#[test]
fn reserved_interface_and_destination_are_dropped() {
    let r = reconciler();
    let c = container(
        "c1",
        &[("port_forward.0.interface", "lan"), ("port_forward.0.destination", "1.2.3.4")],
    );
    assert!(group_labels(&c.labels, DEFAULT_PREFIX).is_empty());
    assert!(r.desired_rules(&c).is_empty());
}

#[test]
fn malformed_key_is_skipped() {
    let r = reconciler();
    let c = container(
        "c1",
        &[
            ("port_forward.0", "x"),
            ("port_forward.1.protocol", "udp"),
            ("port_forward.1.target_port", "53"),
            ("port_forward.2.a.b", "y"),
        ],
    );
    let rules = r.desired_rules(&c);
    assert_eq!(rules.len(), 1);
    assert_eq!(rules[0].description, "c1:1");
    assert_eq!(prop(&rules[0].rule.properties, "protocol"), Some("udp"));
    assert_eq!(prop(&rules[0].rule.properties, "target_port"), Some("53"));
    assert_eq!(rules[0].rule.properties.len(), 5);
}

#[test]
fn parse_rule_key_parts() {
    assert_eq!(
        parse_rule_key("port_forward.7.protocol", DEFAULT_PREFIX),
        Some(("7".to_string(), "protocol".to_string()))
    );
    assert_eq!(parse_rule_key("port_forward.7", DEFAULT_PREFIX), None);
    assert_eq!(parse_rule_key("port_forward.7.a.b", DEFAULT_PREFIX), None);
    assert_eq!(parse_rule_key("other.7.protocol", DEFAULT_PREFIX), None);
    assert_eq!(parse_rule_key("port_forward.7.interface", DEFAULT_PREFIX), None);
}

#[test]
fn labels_group_by_rule_number() {
    let l = labels(&[
        ("port_forward.0.protocol", "tcp"),
        ("caddy", "a.local"),
        ("port_forward.1.protocol", "udp"),
        ("port_forward.0.destination_port", "80"),
    ]);
    let groups = group_labels(&l, DEFAULT_PREFIX);
    assert_eq!(groups.len(), 2);
    let g0 = groups.iter().find(|g| g.rule_number == "0").unwrap();
    let g1 = groups.iter().find(|g| g.rule_number == "1").unwrap();
    assert_eq!(
        sorted(&g0.properties),
        labels(&[("destination_port", "80"), ("protocol", "tcp")])
    );
    assert_eq!(sorted(&g1.properties), labels(&[("protocol", "udp")]));
}

#[test]
fn container_without_matching_labels_contributes_nothing() {
    let r = reconciler();
    let c = container("c1", &[("maintainer", "me")]);
    assert!(r.desired_host(&c).is_none());
    assert!(r.desired_rules(&c).is_empty());
    let mut t = AppliedStateTracker::new();
    assert!(run_cycle(&r, &mut t, &[c], &never).is_empty());
}

#[test]
fn example_end_to_end() {
    let r = reconciler();
    let c = container(
        "abc",
        &[
            ("caddy", "svc.local"),
            ("port_forward.1.protocol", "udp"),
            ("port_forward.1.destination_port", "55555"),
            ("port_forward.1.target_port", "55555"),
        ],
    );
    let mut t = AppliedStateTracker::new();
    let calls = run_cycle(&r, &mut t, std::slice::from_ref(&c), &never);
    let expected_rule = sorted(&labels(&[
        ("protocol", "udp"),
        ("destination_port", "55555"),
        ("target_port", "55555"),
        ("interface", "wan"),
        ("destination", "192.168.1.10"),
        ("description", "abc:1"),
    ]));
    assert_eq!(
        calls,
        vec![
            Call::Host("svc.local".to_string(), "192.168.1.10".to_string()),
            Call::Rule(expected_rule),
        ]
    );
    assert!(t.has_hostname("svc.local"));
    assert!(t.has_description("abc:1"));
    let again = run_cycle(&r, &mut t, std::slice::from_ref(&c), &never);
    assert!(again.is_empty());
}

#[test]
fn hostname_suffix_filter() {
    let r = reconciler();
    let c = container("c1", &[("caddy", "svc.example.com")]);
    assert!(r.desired_host(&c).is_none());
    let mut t = AppliedStateTracker::new();
    assert!(run_cycle(&r, &mut t, &[c], &never).is_empty());
    let local = container("c2", &[("caddy", "svc.local")]);
    let h = r.desired_host(&local).unwrap();
    assert_eq!(h.hostname, "svc.local");
    assert_eq!(h.target_ip, "192.168.1.10");
}

#[test]
fn repeated_cycles_create_each_key_once() {
    let r = reconciler();
    let cs = vec![
        container("a", &[("caddy", "a.local"), ("port_forward.0.protocol", "tcp")]),
        container("b", &[("caddy", "a.local"), ("port_forward.0.protocol", "udp")]),
    ];
    let mut t = AppliedStateTracker::new();
    let first = run_cycle(&r, &mut t, &cs, &never);
    // The shared host name is created once; rule 0 of each container has its own key.
    assert_eq!(first.len(), 3);
    for _ in 0..5 {
        assert!(run_cycle(&r, &mut t, &cs, &never).is_empty());
    }
}

#[test]
fn failed_rule_does_not_block_others() {
    let r = reconciler();
    let c = container(
        "c",
        &[
            ("caddy", "x.local"),
            ("port_forward.0.protocol", "tcp"),
            ("port_forward.1.protocol", "udp"),
            ("port_forward.2.protocol", "tcp"),
        ],
    );
    let fail_rule_1 = |call: &Call| match call {
        Call::Rule(p) => prop(p, "description") == Some("c:1"),
        _ => false,
    };
    let mut t = AppliedStateTracker::new();
    let calls = run_cycle(&r, &mut t, std::slice::from_ref(&c), &fail_rule_1);
    assert_eq!(calls.len(), 4);
    assert!(t.has_hostname("x.local"));
    assert!(t.has_description("c:0"));
    assert!(!t.has_description("c:1"));
    assert!(t.has_description("c:2"));
    // The failed rule is tried again on the next cycle, and only it.
    let retry = run_cycle(&r, &mut t, std::slice::from_ref(&c), &never);
    assert_eq!(retry.len(), 1);
    assert!(t.has_description("c:1"));
}

#[test]
fn failed_host_is_retried_by_next_container() {
    let r = reconciler();
    let cs = vec![container("a", &[("caddy", "s.local")]), container("b", &[("caddy", "s.local")])];
    let mut t = AppliedStateTracker::new();
    let failed_once = std::cell::Cell::new(false);
    let fail_first = |_: &Call| !failed_once.replace(true);
    let calls = run_cycle(&r, &mut t, &cs, &fail_first);
    assert_eq!(calls.len(), 2);
    assert!(t.has_hostname("s.local"));
}

#[test]
fn same_rule_number_on_two_containers_gives_two_keys() {
    let r = reconciler();
    let a = container("a", &[("port_forward.0.protocol", "tcp")]);
    let b = container("b", &[("port_forward.0.protocol", "tcp")]);
    assert_eq!(r.desired_rules(&a)[0].description, "a:0");
    assert_eq!(r.desired_rules(&b)[0].description, "b:0");
}

#[test]
fn host_name_splits_into_host_and_domain() {
    assert_eq!(host_and_domain("svc.local"), ("svc".to_string(), "local".to_string()));
    assert_eq!(host_and_domain("a.b.local"), ("a".to_string(), "b.local".to_string()));
    assert_eq!(host_and_domain("plain"), ("plain".to_string(), String::new()));
    assert_eq!(host_override_key("svc", "local"), "svc.local");
    assert_eq!(host_override_key("plain", ""), "plain");
    let (h, d) = host_and_domain("x.y.local");
    assert_eq!(host_override_key(&h, &d), "x.y.local");
}
