//! An environment bundle: variable names mapped to values, kept sorted by
//! name so that every rendering lists the variables in the same order.

use vstd::prelude::*;

use crate::text::{compare_text, lemma_lt_asymmetric, lemma_lt_irreflexive, lemma_lt_transitive, seq_lt, Order};

verus! {

/// A sequence of (name, value) pairs.
pub type Pairs = Seq<(Seq<char>, Seq<char>)>;

/// Names strictly increase along the sequence, so no name occurs twice.
pub open spec fn keys_strictly_sorted(s: Pairs) -> bool {
    forall|i: int, j: int| 0 <= i < j < s.len() ==> seq_lt(#[trigger] s[i].0, #[trigger] s[j].0)
}

/// The map that inserting the pairs one after another produces: a later
/// pair for the same name replaces an earlier one.
pub open spec fn pairs_to_map(s: Pairs) -> Map<Seq<char>, Seq<char>>
    decreases s.len(),
{
    if s.len() == 0 {
        Map::empty()
    } else {
        pairs_to_map(s.drop_last()).insert(s.last().0, s.last().1)
    }
}

/// The names of a pair sequence, in order.
pub open spec fn pair_keys(s: Pairs) -> Seq<Seq<char>> {
    s.map_values(|e: (Seq<char>, Seq<char>)| e.0)
}

pub open spec fn string_views(v: Seq<String>) -> Seq<Seq<char>> {
    v.map_values(|s: String| s@)
}

pub open spec fn has_key(s: Pairs, k: Seq<char>) -> bool {
    exists|i: int| 0 <= i < s.len() && #[trigger] s[i].0 == k
}

proof fn lemma_lt_ne(a: Seq<char>, b: Seq<char>)
    requires
        seq_lt(a, b),
    ensures
        a != b,
{
    lemma_lt_irreflexive(a);
}

/// For a sequence without repeated names, the map holds exactly its names,
/// each with the value that stands beside it.
pub proof fn lemma_sorted_map(s: Pairs)
    requires
        keys_strictly_sorted(s),
    ensures
        forall|k: Seq<char>| #[trigger] pairs_to_map(s).dom().contains(k) <==> has_key(s, k),
        forall|i: int| 0 <= i < s.len() ==> #[trigger] pairs_to_map(s)[s[i].0] == s[i].1,
    decreases s.len(),
{
    if s.len() > 0 {
        let t = s.drop_last();
        assert(keys_strictly_sorted(t)) by {
            assert forall|i: int, j: int| 0 <= i < j < t.len() implies seq_lt(
                #[trigger] t[i].0,
                #[trigger] t[j].0,
            ) by {
                assert(t[i] == s[i] && t[j] == s[j]);
            }
        }
        lemma_sorted_map(t);
        let last = s.last();
        assert(pairs_to_map(s) == pairs_to_map(t).insert(last.0, last.1));
        assert forall|k: Seq<char>| #[trigger]
            pairs_to_map(s).dom().contains(k) <==> has_key(s, k) by {
            if pairs_to_map(s).dom().contains(k) {
                if k == last.0 {
                    assert(s[s.len() - 1].0 == k);
                } else {
                    assert(pairs_to_map(t).dom().contains(k));
                    assert(has_key(t, k));
                    let i = choose|i: int| 0 <= i < t.len() && #[trigger] t[i].0 == k;
                    assert(s[i].0 == k);
                }
            }
            if has_key(s, k) {
                let i = choose|i: int| 0 <= i < s.len() && #[trigger] s[i].0 == k;
                if i < s.len() - 1 {
                    assert(t[i].0 == k);
                    assert(has_key(t, k));
                    assert(pairs_to_map(t).dom().contains(k));
                }
            }
        }
        assert forall|i: int| 0 <= i < s.len() implies #[trigger] pairs_to_map(s)[s[i].0]
            == s[i].1 by {
            if i < s.len() - 1 {
                assert(seq_lt(s[i].0, s[s.len() - 1].0));
                lemma_lt_ne(s[i].0, s[s.len() - 1].0);
                assert(t[i] == s[i]);
            }
        }
    }
}

/// Two sequences without repeated names that give the same map are the same
/// sequence: the order by name fixes where each pair stands.
pub proof fn lemma_sorted_unique(s: Pairs, t: Pairs)
    requires
        keys_strictly_sorted(s),
        keys_strictly_sorted(t),
        pairs_to_map(s) == pairs_to_map(t),
    ensures
        s == t,
    decreases s.len() + t.len(),
{
    lemma_sorted_map(s);
    lemma_sorted_map(t);
    if s.len() == 0 || t.len() == 0 {
        if s.len() > 0 {
            assert(pairs_to_map(s).dom().contains(s[0].0));
        }
        if t.len() > 0 {
            assert(pairs_to_map(t).dom().contains(t[0].0));
        }
        assert(s =~= t);
    } else {
        // the largest names agree
        let ls = s.last();
        let lt = t.last();
        assert(pairs_to_map(t).dom().contains(ls.0));
        assert(pairs_to_map(s).dom().contains(lt.0));
        let i = choose|i: int| 0 <= i < t.len() && #[trigger] t[i].0 == ls.0;
        let j = choose|j: int| 0 <= j < s.len() && #[trigger] s[j].0 == lt.0;
        if i < t.len() - 1 {
            assert(seq_lt(t[i].0, t[t.len() - 1].0));
            if j < s.len() - 1 {
                assert(seq_lt(s[j].0, s[s.len() - 1].0));
                lemma_lt_asymmetric(ls.0, lt.0);
            } else {
                lemma_lt_irreflexive(ls.0);
            }
        } else if j < s.len() - 1 {
            assert(seq_lt(s[j].0, s[s.len() - 1].0));
            lemma_lt_irreflexive(lt.0);
        }
        assert(ls.0 == lt.0);
        assert(pairs_to_map(s)[ls.0] == ls.1);
        assert(pairs_to_map(t)[lt.0] == lt.1);
        let s2 = s.drop_last();
        let t2 = t.drop_last();
        assert(keys_strictly_sorted(s2)) by {
            assert forall|a: int, b: int| 0 <= a < b < s2.len() implies seq_lt(
                #[trigger] s2[a].0,
                #[trigger] s2[b].0,
            ) by {
                assert(s2[a] == s[a] && s2[b] == s[b]);
            }
        }
        assert(keys_strictly_sorted(t2)) by {
            assert forall|a: int, b: int| 0 <= a < b < t2.len() implies seq_lt(
                #[trigger] t2[a].0,
                #[trigger] t2[b].0,
            ) by {
                assert(t2[a] == t[a] && t2[b] == t[b]);
            }
        }
        lemma_sorted_map(s2);
        lemma_sorted_map(t2);
        assert(pairs_to_map(s2) =~= pairs_to_map(t2)) by {
            assert forall|k: Seq<char>| #[trigger] pairs_to_map(s2).dom().contains(k) implies
                pairs_to_map(t2).dom().contains(k) && pairs_to_map(s2)[k] == pairs_to_map(
                t2,
            )[k] by {
                let a = choose|a: int| 0 <= a < s2.len() && #[trigger] s2[a].0 == k;
                assert(s[a].0 == k);
                assert(seq_lt(s[a].0, s[s.len() - 1].0));
                lemma_lt_ne(k, ls.0);
                assert(pairs_to_map(t).dom().contains(k));
                let b = choose|b: int| 0 <= b < t.len() && #[trigger] t[b].0 == k;
                if b == t.len() - 1 {
                    assert(false);
                }
                assert(t2[b].0 == k);
                assert(pairs_to_map(s)[k] == s[a].1);
                assert(pairs_to_map(t)[k] == t[b].1);
                assert(pairs_to_map(s2)[k] == s2[a].1);
                assert(pairs_to_map(t2)[k] == t2[b].1);
            }
            assert forall|k: Seq<char>| #[trigger] pairs_to_map(t2).dom().contains(k) implies
                pairs_to_map(s2).dom().contains(k) by {
                let b = choose|b: int| 0 <= b < t2.len() && #[trigger] t2[b].0 == k;
                assert(t[b].0 == k);
                assert(seq_lt(t[b].0, t[t.len() - 1].0));
                lemma_lt_ne(k, lt.0);
                assert(pairs_to_map(s).dom().contains(k));
                let a = choose|a: int| 0 <= a < s.len() && #[trigger] s[a].0 == k;
                if a == s.len() - 1 {
                    assert(false);
                }
                assert(s2[a].0 == k);
            }
        }
        lemma_sorted_unique(s2, t2);
        assert(s =~= s2.push(ls));
        assert(t =~= t2.push(lt));
    }
}

pub open spec fn pairs_of(v: Seq<(String, String)>) -> Pairs {
    v.map_values(|e: (String, String)| (e.0@, e.1@))
}

/// Variables of one bundle, sorted by name, each name once.
#[derive(Debug)]
pub struct Env {
    entries: Vec<(String, String)>,
}

impl View for Env {
    type V = Pairs;

    closed spec fn view(&self) -> Pairs {
        pairs_of(self.entries@)
    }
}

impl Env {
    #[verifier::type_invariant]
    closed spec fn sorted(self) -> bool {
        keys_strictly_sorted(self@)
    }

    /// The bundle's variables as a map.
    pub open spec fn map(self) -> Map<Seq<char>, Seq<char>> {
        pairs_to_map(self@)
    }

    /// An empty bundle.
    pub fn new() -> (r: Env)
        ensures
            r@ == Seq::<(Seq<char>, Seq<char>)>::empty(),
            r.map() == Map::<Seq<char>, Seq<char>>::empty(),
    {
        let r = Env { entries: Vec::new() };
        assert(r@ =~= Seq::<(Seq<char>, Seq<char>)>::empty());
        r
    }

    /// Number of variables; the entries are sorted by name.
    pub fn len(&self) -> (r: usize)
        ensures
            r == self@.len(),
            keys_strictly_sorted(self@),
    {
        proof {
            use_type_invariant(self);
        }
        self.entries.len()
    }

    pub fn is_empty(&self) -> (r: bool)
        ensures
            r == (self@.len() == 0),
    {
        self.entries.len() == 0
    }

    /// The name at position `i` in name order.
    pub fn key_at(&self, i: usize) -> (r: &String)
        requires
            i < self@.len(),
        ensures
            r@ == self@[i as int].0,
    {
        &self.entries[i].0
    }

    /// The value at position `i` in name order.
    pub fn value_at(&self, i: usize) -> (r: &String)
        requires
            i < self@.len(),
        ensures
            r@ == self@[i as int].1,
    {
        &self.entries[i].1
    }

    /// The value of `key`, if the bundle holds it.
    pub fn get(&self, key: &str) -> (r: Option<&String>)
        ensures
            match r {
                Some(v) => self.map().dom().contains(key@) && v@ == self.map()[key@],
                None => !self.map().dom().contains(key@),
            },
    {
        proof {
            use_type_invariant(self);
            lemma_sorted_map(self@);
        }
        match locate(&self.entries, key) {
            Ok(i) => Some(&self.entries[i].1),
            Err(p) => {
                proof {
                    if has_key(self@, key@) {
                        let j = choose|j: int| 0 <= j < self@.len() && #[trigger] self@[j].0 == key@;
                        if j < p {
                            lemma_lt_irreflexive(key@);
                        } else {
                            lemma_lt_irreflexive(key@);
                        }
                    }
                }
                None
            },
        }
    }

    /// Whether the bundle holds `key`.
    pub fn contains_key(&self, key: &str) -> (r: bool)
        ensures
            r == self.map().dom().contains(key@),
    {
        self.get(key).is_some()
    }

    /// Sets `key` to `value`, replacing any earlier value.
    pub fn insert(&mut self, key: String, value: String)
        ensures
            final(self).map() == old(self).map().insert(key@, value@),
    {
        proof {
            use_type_invariant(&*self);
        }
        let mut entries: Vec<(String, String)> = Vec::new();
        std::mem::swap(&mut entries, &mut self.entries);
        insert_sorted(&mut entries, key, value);
        self.entries = entries;
    }

    /// Removes `key`, returning its value if it was present.
    pub fn remove(&mut self, key: &str) -> (r: Option<String>)
        ensures
            final(self).map() == old(self).map().remove(key@),
            match r {
                Some(v) => old(self).map().dom().contains(key@) && v@ == old(self).map()[key@],
                None => !old(self).map().dom().contains(key@),
            },
    {
        proof {
            use_type_invariant(&*self);
        }
        let mut entries: Vec<(String, String)> = Vec::new();
        std::mem::swap(&mut entries, &mut self.entries);
        let r = remove_sorted(&mut entries, key);
        self.entries = entries;
        r
    }

    /// The names, in order.
    pub fn keys(&self) -> (r: Vec<String>)
        ensures
            string_views(r@) == pair_keys(self@),
    {
        let n = self.entries.len();
        let mut out: Vec<String> = Vec::new();
        let mut i: usize = 0;
        while i < n
            invariant
                n == self@.len(),
                i <= n,
                out@.len() == i,
                string_views(out@) =~= pair_keys(self@).subrange(0, i as int),
            decreases n - i,
        {
            let k = self.key_at(i).clone();
            let ghost before = out@;
            out.push(k);
            proof {
                assert forall|j: int| 0 <= j <= i implies #[trigger] string_views(out@)[j]
                    == pair_keys(self@).subrange(0, i + 1)[j] by {
                    if j < i {
                        assert(out@[j] == before[j]);
                        assert(string_views(before)[j] == pair_keys(self@).subrange(0, i as int)[j]);
                    }
                }
                assert(string_views(out@) =~= pair_keys(self@).subrange(0, i + 1));
            }
            i = i + 1;
        }
        assert(pair_keys(self@).subrange(0, n as int) =~= pair_keys(self@));
        out
    }
}

/// Where `key` stands, or where it would be inserted.
fn locate(entries: &Vec<(String, String)>, key: &str) -> (r: Result<usize, usize>)
    requires
        keys_strictly_sorted(pairs_of(entries@)),
    ensures
        match r {
            Ok(i) => i < pairs_of(entries@).len() && pairs_of(entries@)[i as int].0 == key@,
            Err(p) => p <= pairs_of(entries@).len() && (forall|j: int|
                0 <= j < p ==> seq_lt(#[trigger] pairs_of(entries@)[j].0, key@)) && (forall|j: int|
                p <= j < pairs_of(entries@).len() ==> seq_lt(key@, #[trigger] pairs_of(entries@)[j].0)),
        },
{
    let n = entries.len();
    let mut i: usize = 0;
    while i < n
        invariant
            n == pairs_of(entries@).len(),
            i <= n,
            keys_strictly_sorted(pairs_of(entries@)),
            forall|j: int| 0 <= j < i ==> seq_lt(#[trigger] pairs_of(entries@)[j].0, key@),
        decreases n - i,
    {
        match compare_text(entries[i].0.as_str(), key) {
            Order::Less => {},
            Order::Equal => {
                return Ok(i);
            },
            Order::Greater => {
                proof {
                    assert forall|j: int| i <= j < n implies seq_lt(
                        key@,
                        #[trigger] pairs_of(entries@)[j].0,
                    ) by {
                        if j > i {
                            lemma_lt_transitive(key@, pairs_of(entries@)[i as int].0, pairs_of(entries@)[j].0);
                        }
                    }
                }
                return Err(i);
            },
        }
        i = i + 1;
    }
    Err(i)
}

/// Sets `key` to `value`, replacing any earlier value.
fn insert_sorted(entries: &mut Vec<(String, String)>, key: String, value: String)
    requires
        keys_strictly_sorted(pairs_of(old(entries)@)),
    ensures
        keys_strictly_sorted(pairs_of(final(entries)@)),
        pairs_to_map(pairs_of(final(entries)@)) == pairs_to_map(pairs_of(old(entries)@)).insert(key@, value@),
{
    proof {
        lemma_sorted_map(pairs_of(entries@));
    }
    let ghost old_view = pairs_of(entries@);
    let ghost k = key@;
    let ghost v = value@;
    match locate(entries, key.as_str()) {
        Ok(i) => {
            entries.remove(i);
            proof {
                assert(pairs_of(entries@) =~= old_view.remove(i as int));
                assert forall|a: int, b: int| 0 <= a < b < pairs_of(entries@).len() implies seq_lt(
                    #[trigger] pairs_of(entries@)[a].0,
                    #[trigger] pairs_of(entries@)[b].0,
                ) by {
                    let a0 = if a < i { a } else { a + 1 };
                    let b0 = if b < i { b } else { b + 1 };
                    assert(pairs_of(entries@)[a] == old_view[a0] && pairs_of(entries@)[b] == old_view[b0]);
                }
            }
            entries.insert(i, (key, value));
            proof {
                assert(pairs_of(entries@) =~= old_view.update(i as int, (k, v)));
                assert forall|a: int, b: int| 0 <= a < b < pairs_of(entries@).len() implies seq_lt(
                    #[trigger] pairs_of(entries@)[a].0,
                    #[trigger] pairs_of(entries@)[b].0,
                ) by {
                    assert(pairs_of(entries@)[a].0 == old_view[a].0 && pairs_of(entries@)[b].0 == old_view[b].0);
                }
                lemma_sorted_map(pairs_of(entries@));
                assert(pairs_to_map(pairs_of(entries@)) =~= pairs_to_map(old_view).insert(k, v)) by {
                    assert forall|kk: Seq<char>| #[trigger]
                        pairs_to_map(pairs_of(entries@)).dom().contains(kk) implies pairs_to_map(old_view).insert(
                        k,
                        v,
                    ).dom().contains(kk) by {
                        let a = choose|a: int| 0 <= a < pairs_of(entries@).len() && #[trigger] pairs_of(entries@)[a].0 == kk;
                        assert(old_view[a].0 == kk);
                    }
                    assert forall|kk: Seq<char>| #[trigger]
                        pairs_to_map(old_view).insert(k, v).dom().contains(kk) implies pairs_to_map(pairs_of(entries@)).dom().contains(
                        kk,
                    ) && pairs_to_map(pairs_of(entries@))[kk] == pairs_to_map(old_view).insert(k, v)[kk] by {
                        if kk == k {
                            assert(pairs_of(entries@)[i as int].0 == k);
                        } else {
                            let a = choose|a: int| 0 <= a < old_view.len() && #[trigger] old_view[a].0 == kk;
                            assert(a != i);
                            assert(pairs_of(entries@)[a] == old_view[a]);
                        }
                    }
                }
            }
        },
        Err(p) => {
            entries.insert(p, (key, value));
            proof {
                assert(pairs_of(entries@) =~= old_view.insert(p as int, (k, v)));
                assert forall|a: int, b: int| 0 <= a < b < pairs_of(entries@).len() implies seq_lt(
                    #[trigger] pairs_of(entries@)[a].0,
                    #[trigger] pairs_of(entries@)[b].0,
                ) by {
                    if a < p && b < p {
                        assert(pairs_of(entries@)[a] == old_view[a] && pairs_of(entries@)[b] == old_view[b]);
                    } else if a < p && b == p {
                        assert(pairs_of(entries@)[a] == old_view[a]);
                    } else if a < p {
                        assert(pairs_of(entries@)[a] == old_view[a] && pairs_of(entries@)[b] == old_view[b - 1]);
                        lemma_lt_transitive(old_view[a].0, k, old_view[b - 1].0);
                    } else if a == p {
                        assert(pairs_of(entries@)[b] == old_view[b - 1]);
                    } else {
                        assert(pairs_of(entries@)[a] == old_view[a - 1] && pairs_of(entries@)[b] == old_view[b - 1]);
                    }
                }
                lemma_sorted_map(pairs_of(entries@));
                assert(pairs_to_map(pairs_of(entries@)) =~= pairs_to_map(old_view).insert(k, v)) by {
                    assert forall|kk: Seq<char>| #[trigger]
                        pairs_to_map(pairs_of(entries@)).dom().contains(kk) implies pairs_to_map(old_view).insert(
                        k,
                        v,
                    ).dom().contains(kk) by {
                        let a = choose|a: int| 0 <= a < pairs_of(entries@).len() && #[trigger] pairs_of(entries@)[a].0 == kk;
                        if a < p {
                            assert(old_view[a].0 == kk);
                        } else if a > p {
                            assert(old_view[a - 1].0 == kk);
                        }
                    }
                    assert forall|kk: Seq<char>| #[trigger]
                        pairs_to_map(old_view).insert(k, v).dom().contains(kk) implies pairs_to_map(pairs_of(entries@)).dom().contains(
                        kk,
                    ) && pairs_to_map(pairs_of(entries@))[kk] == pairs_to_map(old_view).insert(k, v)[kk] by {
                        if kk == k {
                            assert(pairs_of(entries@)[p as int].0 == k);
                        } else {
                            let a = choose|a: int| 0 <= a < old_view.len() && #[trigger] old_view[a].0 == kk;
                            if a < p {
                                assert(pairs_of(entries@)[a] == old_view[a]);
                            } else {
                                assert(pairs_of(entries@)[a + 1] == old_view[a]);
                            }
                        }
                    }
                }
            }
        },
    }
}

/// Removes `key`, returning its value if it was present.
fn remove_sorted(entries: &mut Vec<(String, String)>, key: &str) -> (r: Option<String>)
    requires
        keys_strictly_sorted(pairs_of(old(entries)@)),
    ensures
        keys_strictly_sorted(pairs_of(final(entries)@)),
        pairs_to_map(pairs_of(final(entries)@)) == pairs_to_map(pairs_of(old(entries)@)).remove(key@),
        match r {
            Some(v) => pairs_to_map(pairs_of(old(entries)@)).dom().contains(key@) && v@ == pairs_to_map(pairs_of(old(entries)@))[key@],
            None => !pairs_to_map(pairs_of(old(entries)@)).dom().contains(key@),
        },
{
    proof {
        lemma_sorted_map(pairs_of(entries@));
    }
    let ghost old_view = pairs_of(entries@);
    match locate(entries, key) {
        Ok(i) => {
            let (_, value) = entries.remove(i);
            proof {
                assert(pairs_of(entries@) =~= old_view.remove(i as int));
                assert forall|a: int, b: int| 0 <= a < b < pairs_of(entries@).len() implies seq_lt(
                    #[trigger] pairs_of(entries@)[a].0,
                    #[trigger] pairs_of(entries@)[b].0,
                ) by {
                    let a0 = if a < i { a } else { a + 1 };
                    let b0 = if b < i { b } else { b + 1 };
                    assert(pairs_of(entries@)[a] == old_view[a0] && pairs_of(entries@)[b] == old_view[b0]);
                }
                lemma_sorted_map(pairs_of(entries@));
                assert(pairs_to_map(pairs_of(entries@)) =~= pairs_to_map(old_view).remove(key@)) by {
                    assert forall|kk: Seq<char>| #[trigger]
                        pairs_to_map(pairs_of(entries@)).dom().contains(kk) implies pairs_to_map(old_view).remove(
                        key@,
                    ).dom().contains(kk) && pairs_to_map(pairs_of(entries@))[kk] == pairs_to_map(old_view)[kk] by {
                        let a = choose|a: int| 0 <= a < pairs_of(entries@).len() && #[trigger] pairs_of(entries@)[a].0 == kk;
                        let a0 = if a < i { a } else { a + 1 };
                        assert(old_view[a0] == pairs_of(entries@)[a]);
                        lemma_lt_ne(
                            if a0 < i { old_view[a0].0 } else { old_view[i as int].0 },
                            if a0 < i { old_view[i as int].0 } else { old_view[a0].0 },
                        );
                    }
                    assert forall|kk: Seq<char>| #[trigger]
                        pairs_to_map(old_view).remove(key@).dom().contains(kk) implies pairs_to_map(pairs_of(entries@)).dom().contains(
                        kk,
                    ) by {
                        let a = choose|a: int| 0 <= a < old_view.len() && #[trigger] old_view[a].0 == kk;
                        if a < i {
                            assert(pairs_of(entries@)[a] == old_view[a]);
                        } else {
                            assert(a != i);
                            assert(pairs_of(entries@)[a - 1] == old_view[a]);
                        }
                    }
                }
            }
            Some(value)
        },
        Err(p) => {
            proof {
                if has_key(old_view, key@) {
                    let j = choose|j: int| 0 <= j < old_view.len() && #[trigger] old_view[j].0 == key@;
                    lemma_lt_irreflexive(key@);
                }
                assert(pairs_to_map(pairs_of(entries@)) =~= pairs_to_map(old_view).remove(key@));
            }
            None
        },
    }
}

/// Maps later in the sequence win over earlier ones.
pub open spec fn merge_maps(ms: Seq<Map<Seq<char>, Seq<char>>>) -> Map<Seq<char>, Seq<char>>
    decreases ms.len(),
{
    if ms.len() == 0 {
        Map::empty()
    } else {
        merge_maps(ms.drop_last()).union_prefer_right(ms.last())
    }
}

pub open spec fn env_maps(envs: Seq<Env>) -> Seq<Map<Seq<char>, Seq<char>>> {
    envs.map_values(|e: Env| e.map())
}

/// Copies every variable of `from` into `into`, replacing values of names
/// both hold.
pub fn merge_into(into: &mut Env, from: &Env)
    ensures
        final(into).map() == old(into).map().union_prefer_right(from.map()),
{
    let n = from.len();
    let mut i: usize = 0;
    proof {
        lemma_sorted_map(from@);
    }
    while i < n
        invariant
            n == from@.len(),
            i <= n,
            keys_strictly_sorted(from@),
            into.map() == old(into).map().union_prefer_right(
                pairs_to_map(from@.subrange(0, i as int)),
            ),
        decreases n - i,
    {
        let ghost before = into.map();
        into.insert(from.key_at(i).clone(), from.value_at(i).clone());
        proof {
            let s = from@.subrange(0, i + 1);
            assert(s.drop_last() =~= from@.subrange(0, i as int));
            assert(into.map() =~= old(into).map().union_prefer_right(pairs_to_map(s)));
        }
        i = i + 1;
    }
    proof {
        assert(from@.subrange(0, n as int) =~= from@);
    }
}

/// Merges bundles in order; a later bundle wins for a name that several
/// hold.
pub fn merge_envs(envs: &Vec<Env>) -> (r: Env)
    ensures
        r.map() == merge_maps(env_maps(envs@)),
{
    let mut merged = Env::new();
    let mut i: usize = 0;
    while i < envs.len()
        invariant
            i <= envs@.len(),
            merged.map() == merge_maps(env_maps(envs@.subrange(0, i as int))),
        decreases envs@.len() - i,
    {
        merge_into(&mut merged, &envs[i]);
        proof {
            let s = envs@.subrange(0, i + 1);
            assert(env_maps(s).drop_last() =~= env_maps(envs@.subrange(0, i as int)));
            assert(env_maps(s).last() == envs@[i as int].map());
        }
        i = i + 1;
    }
    proof {
        assert(envs@.subrange(0, envs@.len() as int) =~= envs@);
    }
    merged
}

/// Law: merging bundles, the value of a name comes from the last bundle
/// that holds it.
pub proof fn law_later_bundle_wins(ms: Seq<Map<Seq<char>, Seq<char>>>, k: Seq<char>, j: int)
    requires
        0 <= j < ms.len(),
        ms[j].dom().contains(k),
        forall|l: int| j < l < ms.len() ==> !(#[trigger] ms[l]).dom().contains(k),
    ensures
        merge_maps(ms).dom().contains(k),
        merge_maps(ms)[k] == ms[j][k],
    decreases ms.len(),
{
    if j < ms.len() - 1 {
        let t = ms.drop_last();
        assert forall|l: int| j < l < t.len() implies !(#[trigger] t[l]).dom().contains(k) by {
            assert(t[l] == ms[l]);
        }
        law_later_bundle_wins(t, k, j);
        assert(!ms[ms.len() - 1].dom().contains(k));
    }
}

/// Law: the merged bundle holds exactly the names that some bundle holds.
pub proof fn law_merged_names_are_all_names(ms: Seq<Map<Seq<char>, Seq<char>>>, k: Seq<char>)
    ensures
        merge_maps(ms).dom().contains(k) <==> exists|j: int| 0 <= j < ms.len() && #[trigger] ms[j].dom().contains(k),
    decreases ms.len(),
{
    if ms.len() > 0 {
        let t = ms.drop_last();
        law_merged_names_are_all_names(t, k);
        if merge_maps(t).dom().contains(k) {
            let j = choose|j: int| 0 <= j < t.len() && #[trigger] t[j].dom().contains(k);
            assert(ms[j] == t[j]);
        }
        if exists|j: int| 0 <= j < ms.len() && #[trigger] ms[j].dom().contains(k) {
            let j = choose|j: int| 0 <= j < ms.len() && #[trigger] ms[j].dom().contains(k);
            if j < ms.len() - 1 {
                assert(t[j] == ms[j]);
            }
        }
    }
}

} // verus!
