use vstd::prelude::*;
use crate::pairs::{
    Pairs, pairs_view, keys_unique, pairs_map, lemma_pairs_map_lookup, lemma_pairs_map_absent,
    lemma_pairs_map_update, lemma_pairs_map_push, set_pair, copy_pairs, str_eq,
};

verus! {

/// The label prefix under which port-forward rules are declared.
pub const DEFAULT_PREFIX: &'static str = "port_forward.";

/// Position of the first '.' in `s` at or after `from`, or `s.len()` where there is none.
pub open spec fn first_dot(s: Seq<char>, from: int) -> int
    decreases s.len() - from,
{
    if from >= s.len() {
        s.len() as int
    } else if s[from] == '.' {
        from
    } else {
        first_dot(s, from + 1)
    }
}

pub open spec fn dot1(k: Seq<char>) -> int {
    first_dot(k, 0)
}

pub open spec fn dot2(k: Seq<char>) -> int {
    first_dot(k, dot1(k) + 1)
}

/// The key splits on '.' into exactly three parts.
pub open spec fn has_three_parts(k: Seq<char>) -> bool {
    dot1(k) < k.len() && dot2(k) < k.len() && first_dot(k, dot2(k) + 1) == k.len()
}

/// The middle part of a three-part key: the rule number.
pub open spec fn rule_part(k: Seq<char>) -> Seq<char> {
    k.subrange(dot1(k) + 1, dot2(k))
}

/// The last part of a three-part key: the property name.
pub open spec fn prop_part(k: Seq<char>) -> Seq<char> {
    k.subrange(dot2(k) + 1, k.len() as int)
}

pub open spec fn starts_with(s: Seq<char>, prefix: Seq<char>) -> bool {
    prefix.len() <= s.len() && s.subrange(0, prefix.len() as int) == prefix
}

pub open spec fn ends_with(s: Seq<char>, suffix: Seq<char>) -> bool {
    suffix.len() <= s.len() && s.subrange(s.len() - suffix.len(), s.len() as int) == suffix
}

/// Properties that the system sets itself and that no label may set.
pub open spec fn is_reserved(p: Seq<char>) -> bool {
    p == "description"@ || p == "interface"@ || p == "destination"@
}

/// A label declares a rule property: it has the prefix, three parts, and a property
/// that is not reserved.
pub open spec fn label_accepted(k: Seq<char>, prefix: Seq<char>) -> bool {
    starts_with(k, prefix) && has_three_parts(k) && !is_reserved(prop_part(k))
}

/// The rule groups that a sequence of labels declares: rule number to property map.
pub open spec fn grouped(labels: Seq<(Seq<char>, Seq<char>)>, prefix: Seq<char>) -> Map<
    Seq<char>,
    Map<Seq<char>, Seq<char>>,
>
    decreases labels.len(),
{
    if labels.len() == 0 {
        Map::empty()
    } else {
        let prev = grouped(labels.drop_last(), prefix);
        let (k, v) = labels.last();
        if label_accepted(k, prefix) {
            let r = rule_part(k);
            let inner = if prev.contains_key(r) {
                prev[r]
            } else {
                Map::empty()
            };
            prev.insert(r, inner.insert(prop_part(k), v))
        } else {
            prev
        }
    }
}

/// A port-forward rule: its number and its properties.
pub struct PortForwardRuleSpec {
    pub rule_number: String,
    pub properties: Pairs,
}

impl View for PortForwardRuleSpec {
    type V = (Seq<char>, Map<Seq<char>, Seq<char>>);

    open spec fn view(&self) -> Self::V {
        (self.rule_number@, pairs_map(pairs_view(self.properties@)))
    }
}

impl PortForwardRuleSpec {
    /// No property is listed twice.
    pub open spec fn wf(&self) -> bool {
        keys_unique(pairs_view(self.properties@))
    }
}

/// The rules as (number, properties) pairs.
pub open spec fn rules_view(v: Seq<PortForwardRuleSpec>) -> Seq<(Seq<char>, Map<Seq<char>, Seq<char>>)> {
    v.map_values(|r: PortForwardRuleSpec| r@)
}

/// Every rule is well formed and no rule number occurs twice.
pub open spec fn rules_wf(v: Seq<PortForwardRuleSpec>) -> bool {
    &&& keys_unique(rules_view(v))
    &&& forall|i: int| 0 <= i < v.len() ==> #[trigger] v[i].wf()
}

/// The mapping from rule number to properties that a list of rules denotes.
pub open spec fn rules_map(v: Seq<PortForwardRuleSpec>) -> Map<Seq<char>, Map<Seq<char>, Seq<char>>> {
    pairs_map(rules_view(v))
}

pub(crate) fn find_dot(s: &str, n: usize, from: usize) -> (r: usize)
    requires
        n == s@.len(),
        from <= n,
    ensures
        r == first_dot(s@, from as int),
        from <= r <= n,
{
    let mut i: usize = from;
    while i < n
        invariant
            n == s@.len(),
            from <= i <= n,
            first_dot(s@, from as int) == first_dot(s@, i as int),
        decreases n - i,
    {
        if s.get_char(i) == '.' {
            return i;
        }
        i = i + 1;
    }
    i
}

pub fn str_starts_with(s: &str, prefix: &str) -> (r: bool)
    ensures
        r == starts_with(s@, prefix@),
{
    let n = s.unicode_len();
    let m = prefix.unicode_len();
    if m > n {
        return false;
    }
    let mut i: usize = 0;
    while i < m
        invariant
            n == s@.len(),
            m == prefix@.len(),
            m <= n,
            i <= m,
            forall|j: int| 0 <= j < i ==> s@[j] == prefix@[j],
        decreases m - i,
    {
        if s.get_char(i) != prefix.get_char(i) {
            return false;
        }
        i = i + 1;
    }
    assert(s@.subrange(0, m as int) =~= prefix@);
    true
}

pub fn str_ends_with(s: &str, suffix: &str) -> (r: bool)
    ensures
        r == ends_with(s@, suffix@),
{
    let n = s.unicode_len();
    let m = suffix.unicode_len();
    if m > n {
        return false;
    }
    let d = n - m;
    let mut i: usize = 0;
    while i < m
        invariant
            n == s@.len(),
            m == suffix@.len(),
            m <= n,
            d == n - m,
            i <= m,
            forall|j: int| 0 <= j < i ==> s@[d + j] == suffix@[j],
        decreases m - i,
    {
        if s.get_char(d + i) != suffix.get_char(i) {
            assert(s@.subrange(d as int, n as int)[i as int] != suffix@[i as int]);
            return false;
        }
        i = i + 1;
    }
    assert(s@.subrange(d as int, n as int) =~= suffix@);
    true
}

fn reserved_property(p: &str) -> (r: bool)
    ensures
        r == is_reserved(p@),
{
    str_eq(p, "description") || str_eq(p, "interface") || str_eq(p, "destination")
}

/// The rule number and property that a label key declares, when the label is accepted.
pub fn parse_rule_key(key: &str, prefix: &str) -> (r: Option<(String, String)>)
    ensures
        match r {
            Some((rule, prop)) => label_accepted(key@, prefix@) && rule@ == rule_part(key@)
                && prop@ == prop_part(key@),
            None => !label_accepted(key@, prefix@),
        },
{
    if !str_starts_with(key, prefix) {
        return None;
    }
    let n = key.unicode_len();
    let d1 = find_dot(key, n, 0);
    if d1 == n {
        return None;
    }
    let d2 = find_dot(key, n, d1 + 1);
    if d2 == n {
        return None;
    }
    let d3 = find_dot(key, n, d2 + 1);
    if d3 != n {
        return None;
    }
    let prop = key.substring_char(d2 + 1, n);
    if reserved_property(prop) {
        return None;
    }
    let rule = key.substring_char(d1 + 1, d2);
    Some((rule.to_owned(), prop.to_owned()))
}

/// Index of the rule with number `rule`, if any.
fn find_rule(groups: &Vec<PortForwardRuleSpec>, rule: &str) -> (r: Option<usize>)
    ensures
        match r {
            Some(i) => i < groups@.len() && groups@[i as int].rule_number@ == rule@,
            None => forall|j: int| 0 <= j < groups@.len() ==> groups@[j].rule_number@ != rule@,
        },
{
    let mut i: usize = 0;
    while i < groups.len()
        invariant
            i <= groups@.len(),
            forall|j: int| 0 <= j < i ==> groups@[j].rule_number@ != rule@,
        decreases groups@.len() - i,
    {
        if str_eq(groups[i].rule_number.as_str(), rule) {
            return Some(i);
        }
        i = i + 1;
    }
    None
}

/// Records `prop = value` in the group of rule `rule`, creating the group if needed.
fn add_to_group(groups: &mut Vec<PortForwardRuleSpec>, rule: String, prop: String, value: String)
    requires
        rules_wf(old(groups)@),
    ensures
        rules_wf(final(groups)@),
        rules_map(final(groups)@) == ({
            let prev = rules_map(old(groups)@);
            let inner = if prev.contains_key(rule@) {
                prev[rule@]
            } else {
                Map::empty()
            };
            prev.insert(rule@, inner.insert(prop@, value@))
        }),
{
    let ghost s = rules_view(groups@);
    let ghost prev = rules_map(groups@);
    let found = find_rule(groups, rule.as_str());
    if let Some(i) = found {
        assert(s[i as int].0 == rule@);
        proof {
            lemma_pairs_map_lookup(s, i as int);
        }
        let mut props = copy_pairs(&groups[i].properties);
        assert(groups@[i as int].wf());
        set_pair(&mut props, prop, value);
        let g = PortForwardRuleSpec { rule_number: rule, properties: props };
        let ghost gv = g@;
        proof {
            lemma_pairs_map_update(s, i as int, gv.1);
        }
        groups[i] = g;
        assert(rules_view(groups@) =~= s.update(i as int, (s[i as int].0, gv.1)));
        assert forall|j: int| 0 <= j < groups@.len() implies #[trigger] groups@[j].wf() by {
            if j != i {
                assert(groups@[j] == old(groups)@[j]);
            }
        }
    } else {
        proof {
            assert forall|j: int| 0 <= j < s.len() implies s[j].0 != rule@ by {
                assert(s[j].0 == groups@[j].rule_number@);
            }
            lemma_pairs_map_absent(s, rule@);
        }
        let mut props: Pairs = Vec::new();
        assert(pairs_view(props@) =~= Seq::<(Seq<char>, Seq<char>)>::empty());
        set_pair(&mut props, prop, value);
        let g = PortForwardRuleSpec { rule_number: rule, properties: props };
        let ghost gv = g@;
        groups.push(g);
        assert(rules_view(groups@) =~= s.push(gv));
        proof {
            lemma_pairs_map_push(s, gv.0, gv.1);
        }
        assert forall|j: int| 0 <= j < groups@.len() implies #[trigger] groups@[j].wf() by {
            if j < s.len() {
                assert(groups@[j] == old(groups)@[j]);
            }
        }
        assert forall|a: int, b: int|
            0 <= a < groups@.len() && 0 <= b < groups@.len() && a != b
            implies rules_view(groups@)[a].0 != rules_view(groups@)[b].0 by {
            if a < s.len() && b < s.len() {
                assert(rules_view(groups@)[a] == s[a]);
                assert(rules_view(groups@)[b] == s[b]);
            } else if a < s.len() {
                assert(rules_view(groups@)[a] == s[a]);
            } else {
                assert(rules_view(groups@)[b] == s[b]);
            }
        }
    }
}

/// Groups a container's labels into port-forward rules. A label takes part when its key
/// starts with `prefix`, splits on '.' into exactly three parts, and names a property
/// that is not reserved; any other label is skipped.
pub fn group_labels(labels: &Pairs, prefix: &str) -> (r: Vec<PortForwardRuleSpec>)
    ensures
        rules_wf(r@),
        rules_map(r@) == grouped(pairs_view(labels@), prefix@),
{
    let mut groups: Vec<PortForwardRuleSpec> = Vec::new();
    let ghost all = pairs_view(labels@);
    assert(rules_view(groups@) =~= Seq::<(Seq<char>, Map<Seq<char>, Seq<char>>)>::empty());
    let mut i: usize = 0;
    while i < labels.len()
        invariant
            i <= labels@.len(),
            all == pairs_view(labels@),
            rules_wf(groups@),
            rules_map(groups@) == grouped(all.subrange(0, i as int), prefix@),
        decreases labels@.len() - i,
    {
        let ghost pre = all.subrange(0, i as int + 1);
        assert(pre.drop_last() =~= all.subrange(0, i as int));
        assert(pre.last() == all[i as int]);
        match parse_rule_key(labels[i].0.as_str(), prefix) {
            Some((rule, prop)) => {
                add_to_group(&mut groups, rule, prop, labels[i].1.clone());
            },
            None => {},
        }
        i = i + 1;
    }
    assert(all.subrange(0, labels@.len() as int) =~= all);
    groups
}

} // verus!
