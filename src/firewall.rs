use vstd::prelude::*;
use crate::pairs::{Pairs, set_pair, copy_pairs};
use crate::labels::PortForwardRuleSpec;

verus! {

/// The identity key of a rule: `"{container_id}:{rule_number}"`.
pub open spec fn rule_description(container_id: Seq<char>, rule_number: Seq<char>) -> Seq<char> {
    container_id + ":"@ + rule_number
}

/// A rule's user properties with the three system-set properties put in place.
pub open spec fn injected(
    props: Map<Seq<char>, Seq<char>>,
    container_id: Seq<char>,
    rule_number: Seq<char>,
    wan_interface: Seq<char>,
    local_ip: Seq<char>,
) -> Map<Seq<char>, Seq<char>> {
    props.insert("interface"@, wan_interface).insert("destination"@, local_ip).insert(
        "description"@,
        rule_description(container_id, rule_number),
    )
}

/// A port-forward rule ready to be created, with its identity key.
pub struct DesiredRule {
    pub description: String,
    pub rule: PortForwardRuleSpec,
}

impl DesiredRule {
    /// The rule's description property is its identity key.
    pub open spec fn wf(&self) -> bool {
        &&& self.rule.wf()
        &&& self.rule@.1.contains_key("description"@)
        &&& self.rule@.1["description"@] == self.description@
    }
}

/// Builds port-forward rule requests for the firewall's source NAT rules endpoint: the
/// rule is forwarded from `wan_interface` to `local_ip_address`.
pub struct FirewallSourceNatRulesAPI {
    pub wan_interface: String,
    pub local_ip_address: String,
}

impl FirewallSourceNatRulesAPI {
    pub fn new(wan_interface: String, local_ip_address: String) -> (r: FirewallSourceNatRulesAPI)
        ensures
            r.wan_interface@ == wan_interface@,
            r.local_ip_address@ == local_ip_address@,
    {
        FirewallSourceNatRulesAPI { wan_interface, local_ip_address }
    }

    /// The request that creates `rule` of container `container_id`: the rule's own
    /// properties, with `interface`, `destination` and `description` set by the system.
    pub fn add_firewall_source_nat_rule(&self, container_id: &str, rule: &PortForwardRuleSpec) -> (r:
        DesiredRule)
        requires
            rule.wf(),
        ensures
            r.wf(),
            r.description@ == rule_description(container_id@, rule.rule_number@),
            r.rule.rule_number@ == rule.rule_number@,
            r.rule@.1 == injected(
                rule@.1,
                container_id@,
                rule.rule_number@,
                self.wan_interface@,
                self.local_ip_address@,
            ),
    {
        let mut description = container_id.to_owned();
        description.append(":");
        description.append(rule.rule_number.as_str());
        let mut props: Pairs = copy_pairs(&rule.properties);
        set_pair(&mut props, "interface".to_owned(), self.wan_interface.clone());
        set_pair(&mut props, "destination".to_owned(), self.local_ip_address.clone());
        set_pair(&mut props, "description".to_owned(), description.clone());
        DesiredRule {
            description,
            rule: PortForwardRuleSpec { rule_number: rule.rule_number.clone(), properties: props },
        }
    }
}

} // verus!
