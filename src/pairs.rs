use vstd::prelude::*;

verus! {

/// A string-keyed association list, as stored in the library: pairs of key and value.
pub type Pairs = Vec<(String, String)>;

/// The abstract content of an association list: each pair seen as text.
pub open spec fn pairs_view(v: Seq<(String, String)>) -> Seq<(Seq<char>, Seq<char>)> {
    v.map_values(|p: (String, String)| (p.0@, p.1@))
}

/// No key occurs twice.
pub open spec fn keys_unique<V>(s: Seq<(Seq<char>, V)>) -> bool {
    forall|i: int, j: int| 0 <= i < s.len() && 0 <= j < s.len() && i != j ==> s[i].0 != s[j].0
}

/// The mapping an association list denotes; where a key repeats, the later pair wins.
pub open spec fn pairs_map<V>(s: Seq<(Seq<char>, V)>) -> Map<Seq<char>, V>
    decreases s.len(),
{
    if s.len() == 0 {
        Map::empty()
    } else {
        pairs_map(s.drop_last()).insert(s.last().0, s.last().1)
    }
}

pub proof fn lemma_pairs_map_push<V>(s: Seq<(Seq<char>, V)>, k: Seq<char>, v: V)
    ensures
        pairs_map(s.push((k, v))) == pairs_map(s).insert(k, v),
{
    assert(s.push((k, v)).drop_last() =~= s);
}

/// A key that no pair holds is absent from the mapping.
pub proof fn lemma_pairs_map_absent<V>(s: Seq<(Seq<char>, V)>, k: Seq<char>)
    requires
        forall|i: int| 0 <= i < s.len() ==> s[i].0 != k,
    ensures
        !pairs_map(s).contains_key(k),
    decreases s.len(),
{
    if s.len() > 0 {
        lemma_pairs_map_absent(s.drop_last(), k);
    }
}

/// With unique keys, the mapping gives each key the value of its pair.
pub proof fn lemma_pairs_map_lookup<V>(s: Seq<(Seq<char>, V)>, i: int)
    requires
        keys_unique(s),
        0 <= i < s.len(),
    ensures
        pairs_map(s).contains_key(s[i].0),
        pairs_map(s)[s[i].0] == s[i].1,
    decreases s.len(),
{
    if i < s.len() - 1 {
        let t = s.drop_last();
        assert(t[i] == s[i]);
        lemma_pairs_map_lookup(t, i);
    }
}

/// Replacing the pair of a key with unique keys updates that key in the mapping.
pub proof fn lemma_pairs_map_update<V>(s: Seq<(Seq<char>, V)>, i: int, v: V)
    requires
        keys_unique(s),
        0 <= i < s.len(),
    ensures
        pairs_map(s.update(i, (s[i].0, v))) == pairs_map(s).insert(s[i].0, v),
        keys_unique(s.update(i, (s[i].0, v))),
    decreases s.len(),
{
    let k = s[i].0;
    let u = s.update(i, (k, v));
    let t = s.drop_last();
    if i == s.len() - 1 {
        assert(u.drop_last() =~= t);
        assert(pairs_map(u) =~= pairs_map(s).insert(k, v));
    } else {
        assert(u.drop_last() =~= t.update(i, (k, v)));
        assert(t[i] == s[i]);
        lemma_pairs_map_update(t, i, v);
        assert(s.last().0 != k);
        assert(pairs_map(u) =~= pairs_map(s).insert(k, v));
    }
}

/// Changing each value by a function of its key and value changes the mapping alike.
pub proof fn lemma_pairs_map_transform<V, W>(
    s: Seq<(Seq<char>, V)>,
    t: Seq<(Seq<char>, W)>,
    f: spec_fn(Seq<char>, V) -> W,
)
    requires
        s.len() == t.len(),
        forall|i: int| 0 <= i < s.len() ==> #[trigger] t[i] == (s[i].0, f(s[i].0, s[i].1)),
    ensures
        pairs_map(t) == Map::new(
            |k: Seq<char>| pairs_map(s).contains_key(k),
            |k: Seq<char>| f(k, pairs_map(s)[k]),
        ),
    decreases s.len(),
{
    if s.len() > 0 {
        let s1 = s.drop_last();
        let t1 = t.drop_last();
        assert forall|i: int| 0 <= i < s1.len() implies #[trigger] t1[i] == (s1[i].0, f(s1[i].0, s1[i].1)) by {
            assert(t1[i] == t[i]);
            assert(s1[i] == s[i]);
        }
        lemma_pairs_map_transform(s1, t1, f);
        assert(t.last() == t[t.len() - 1]);
        assert(pairs_map(t) =~= Map::new(
            |k: Seq<char>| pairs_map(s).contains_key(k),
            |k: Seq<char>| f(k, pairs_map(s)[k]),
        ));
    } else {
        assert(pairs_map(t) =~= Map::new(
            |k: Seq<char>| pairs_map(s).contains_key(k),
            |k: Seq<char>| f(k, pairs_map(s)[k]),
        ));
    }
}

/// Index of the pair whose key equals `key`, if any.
pub fn find_key(v: &Pairs, key: &str) -> (r: Option<usize>)
    ensures
        match r {
            Some(i) => i < v@.len() && v@[i as int].0@ == key@,
            None => forall|i: int| 0 <= i < v@.len() ==> v@[i].0@ != key@,
        },
{
    let mut i: usize = 0;
    while i < v.len()
        invariant
            i <= v@.len(),
            forall|j: int| 0 <= j < i ==> v@[j].0@ != key@,
        decreases v@.len() - i,
    {
        if str_eq(v[i].0.as_str(), key) {
            return Some(i);
        }
        i = i + 1;
    }
    None
}

/// Character-wise equality of two strings.
pub fn str_eq(a: &str, b: &str) -> (r: bool)
    ensures
        r == (a@ == b@),
{
    let n = a.unicode_len();
    if n != b.unicode_len() {
        return false;
    }
    let mut i: usize = 0;
    while i < n
        invariant
            n == a@.len(),
            n == b@.len(),
            i <= n,
            forall|j: int| 0 <= j < i ==> a@[j] == b@[j],
        decreases n - i,
    {
        if a.get_char(i) != b.get_char(i) {
            return false;
        }
        i = i + 1;
    }
    assert(a@ =~= b@);
    true
}

/// Copies an association list pair by pair.
pub fn copy_pairs(v: &Pairs) -> (r: Pairs)
    ensures
        r@ == v@,
{
    let mut r: Pairs = Vec::new();
    let mut i: usize = 0;
    while i < v.len()
        invariant
            i <= v@.len(),
            r@ == v@.subrange(0, i as int),
        decreases v@.len() - i,
    {
        r.push((v[i].0.clone(), v[i].1.clone()));
        assert(r@ =~= v@.subrange(0, i + 1));
        i = i + 1;
    }
    assert(r@ =~= v@);
    r
}

/// Sets `key` to `value`, replacing an earlier value of that key.
pub fn set_pair(v: &mut Pairs, key: String, value: String)
    requires
        keys_unique(pairs_view(old(v)@)),
    ensures
        keys_unique(pairs_view(final(v)@)),
        pairs_map(pairs_view(final(v)@)) == pairs_map(pairs_view(old(v)@)).insert(key@, value@),
{
    let ghost s = pairs_view(v@);
    match find_key(v, key.as_str()) {
        Some(i) => {
            proof {
                lemma_pairs_map_update(s, i as int, value@);
            }
            v[i] = (key, value);
            assert(pairs_view(v@) =~= s.update(i as int, (s[i as int].0, value@)));
        },
        None => {
            let ghost kv = key@;
            let ghost vv = value@;
            v.push((key, value));
            assert(pairs_view(v@) =~= s.push((kv, vv)));
            proof {
                lemma_pairs_map_push(s, kv, vv);
            }
        },
    }
}

} // verus!
