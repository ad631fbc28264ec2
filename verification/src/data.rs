use vstd::prelude::*;
use crate::text::{key_less, key_lt, lemma_key_lt_irreflexive, lemma_key_lt_total, lemma_key_lt_transitive};

verus! {

/// A value stored in the database: either a nested tree of named entries or a text value.
///
/// The entries of a tree are kept in strictly increasing key order, so that a key occurs
/// at most once and the keys come out in the order a sorted map would give them.
pub enum Data {
    Tree(Vec<(String, Data)>),
    Value(String),
}

/// The mathematical model of a stored value.
pub enum Node {
    Branch(Map<Seq<char>, Node>),
    Leaf(Seq<char>),
}

pub open spec fn data_node(d: Data) -> Node
    decreases d,
{
    match d {
        Data::Tree(v) => Node::Branch(entries_map(v@)),
        Data::Value(s) => Node::Leaf(s@),
    }
}

pub open spec fn entries_map(s: Seq<(String, Data)>) -> Map<Seq<char>, Node>
    decreases s,
{
    if s.len() == 0 {
        Map::empty()
    } else {
        entries_map(s.drop_last()).insert(s.last().0@, data_node(s.last().1))
    }
}

} // verus!

verus! {

/// Keys of a tree's entries are strictly increasing in key order.
pub open spec fn keys_sorted(s: Seq<(String, Data)>) -> bool {
    forall|i: int, j: int| 0 <= i < j < s.len() ==> key_lt(#[trigger] s[i].0@, #[trigger] s[j].0@)
}

/// No key occurs twice among a tree's entries.
pub open spec fn keys_distinct(s: Seq<(String, Data)>) -> bool {
    forall|i: int, j: int| 0 <= i < j < s.len() ==> #[trigger] s[i].0@ != #[trigger] s[j].0@
}

/// A stored value is well formed when every tree in it keeps its keys sorted.
pub open spec fn data_wf(d: Data) -> bool
    decreases d,
{
    match d {
        Data::Tree(v) => keys_sorted(v@) && entries_wf(v@),
        Data::Value(_) => true,
    }
}

pub open spec fn entries_wf(s: Seq<(String, Data)>) -> bool
    decreases s,
{
    if s.len() == 0 {
        true
    } else {
        entries_wf(s.drop_last()) && data_wf(s.last().1)
    }
}

/// A well-formed tree's entries: sorted keys and well-formed children.
pub open spec fn tree_wf(s: Seq<(String, Data)>) -> bool {
    keys_sorted(s) && entries_wf(s)
}

pub proof fn lemma_sorted_distinct(s: Seq<(String, Data)>)
    requires
        keys_sorted(s),
    ensures
        keys_distinct(s),
{
    assert forall|i: int, j: int| 0 <= i < j < s.len() implies #[trigger] s[i].0@ != #[trigger] s[j].0@ by {
        lemma_key_lt_irreflexive(s[i].0@);
    }
}

pub proof fn lemma_entries_wf_index(s: Seq<(String, Data)>)
    ensures
        entries_wf(s) <==> forall|i: int| 0 <= i < s.len() ==> data_wf(#[trigger] s[i].1),
    decreases s.len(),
{
    if s.len() > 0 {
        lemma_entries_wf_index(s.drop_last());
        if entries_wf(s) {
            assert forall|i: int| 0 <= i < s.len() implies data_wf(#[trigger] s[i].1) by {
                if i < s.len() - 1 {
                    assert(s.drop_last()[i] == s[i]);
                }
            }
        }
        if forall|i: int| 0 <= i < s.len() ==> data_wf(#[trigger] s[i].1) {
            assert forall|i: int| 0 <= i < s.drop_last().len() implies data_wf(#[trigger] s.drop_last()[i].1) by {
                assert(s.drop_last()[i] == s[i]);
            }
            assert(data_wf(s[s.len() - 1].1));
        }
    }
}

pub proof fn lemma_entries_map_absent(s: Seq<(String, Data)>, k: Seq<char>)
    requires
        forall|i: int| 0 <= i < s.len() ==> #[trigger] s[i].0@ != k,
    ensures
        !entries_map(s).contains_key(k),
    decreases s.len(),
{
    if s.len() > 0 {
        assert forall|i: int| 0 <= i < s.drop_last().len() implies #[trigger] s.drop_last()[i].0@ != k by {
            assert(s.drop_last()[i] == s[i]);
        }
        lemma_entries_map_absent(s.drop_last(), k);
        assert(s.last().0@ != k);
    }
}

pub proof fn lemma_entries_map_present(s: Seq<(String, Data)>, k: Seq<char>)
    requires
        entries_map(s).contains_key(k),
    ensures
        exists|i: int| 0 <= i < s.len() && #[trigger] s[i].0@ == k,
{
    if forall|i: int| 0 <= i < s.len() ==> #[trigger] s[i].0@ != k {
        lemma_entries_map_absent(s, k);
    }
}

pub proof fn lemma_entries_map_index(s: Seq<(String, Data)>, i: int)
    requires
        keys_distinct(s),
        0 <= i < s.len(),
    ensures
        entries_map(s).contains_key(s[i].0@),
        entries_map(s)[s[i].0@] == data_node(s[i].1),
    decreases s.len(),
{
    if i < s.len() - 1 {
        let t = s.drop_last();
        assert(t[i] == s[i]);
        assert(keys_distinct(t)) by {
            assert forall|a: int, b: int| 0 <= a < b < t.len() implies #[trigger] t[a].0@ != #[trigger] t[b].0@ by {
                assert(t[a] == s[a] && t[b] == s[b]);
            }
        }
        lemma_entries_map_index(t, i);
        assert(s[i].0@ != s[s.len() - 1].0@);
    }
}

proof fn lemma_distinct_drop_last(s: Seq<(String, Data)>)
    requires
        keys_distinct(s),
        s.len() > 0,
    ensures
        keys_distinct(s.drop_last()),
{
    let t = s.drop_last();
    assert forall|a: int, b: int| 0 <= a < b < t.len() implies #[trigger] t[a].0@ != #[trigger] t[b].0@ by {
        assert(t[a] == s[a] && t[b] == s[b]);
    }
}

/// Replacing the entry at `i` by one with the same key sets that key in the model.
pub proof fn lemma_entries_map_update(s: Seq<(String, Data)>, i: int, e: (String, Data))
    requires
        keys_distinct(s),
        0 <= i < s.len(),
        e.0@ == s[i].0@,
    ensures
        entries_map(s.update(i, e)) == entries_map(s).insert(e.0@, data_node(e.1)),
    decreases s.len(),
{
    let u = s.update(i, e);
    if i == s.len() - 1 {
        assert(u.drop_last() =~= s.drop_last());
        assert(entries_map(u) =~= entries_map(s).insert(e.0@, data_node(e.1)));
    } else {
        lemma_distinct_drop_last(s);
        lemma_entries_map_update(s.drop_last(), i, e);
        assert(u.drop_last() =~= s.drop_last().update(i, e));
        assert(s[i].0@ != s.last().0@);
        assert(entries_map(u) =~= entries_map(s).insert(e.0@, data_node(e.1)));
    }
}

/// Inserting an entry with a new key at any position adds that key to the model.
pub proof fn lemma_entries_map_insert(s: Seq<(String, Data)>, p: int, e: (String, Data))
    requires
        0 <= p <= s.len(),
        forall|i: int| 0 <= i < s.len() ==> #[trigger] s[i].0@ != e.0@,
    ensures
        entries_map(s.insert(p, e)) == entries_map(s).insert(e.0@, data_node(e.1)),
    decreases s.len(),
{
    let u = s.insert(p, e);
    if p == s.len() {
        assert(u.drop_last() =~= s);
        assert(entries_map(u) =~= entries_map(s).insert(e.0@, data_node(e.1)));
    } else {
        let t = s.drop_last();
        assert forall|i: int| 0 <= i < t.len() implies #[trigger] t[i].0@ != e.0@ by {
            assert(t[i] == s[i]);
        }
        lemma_entries_map_insert(t, p, e);
        assert(u.drop_last() =~= t.insert(p, e));
        assert(u.last() == s.last());
        assert(entries_map(u) =~= entries_map(s).insert(e.0@, data_node(e.1)));
    }
}

/// Removing the entry at `i` removes its key from the model.
pub proof fn lemma_entries_map_remove(s: Seq<(String, Data)>, i: int)
    requires
        keys_distinct(s),
        0 <= i < s.len(),
    ensures
        entries_map(s.remove(i)) == entries_map(s).remove(s[i].0@),
    decreases s.len(),
{
    let u = s.remove(i);
    let t = s.drop_last();
    lemma_distinct_drop_last(s);
    if i == s.len() - 1 {
        assert(u =~= t);
        assert forall|j: int| 0 <= j < t.len() implies #[trigger] t[j].0@ != s[i].0@ by {
            assert(t[j] == s[j]);
        }
        lemma_entries_map_absent(t, s[i].0@);
        assert(entries_map(u) =~= entries_map(s).remove(s[i].0@));
    } else {
        lemma_entries_map_remove(t, i);
        assert(u.drop_last() =~= t.remove(i));
        assert(u.last() == s.last());
        assert(t[i] == s[i]);
        assert(s[i].0@ != s.last().0@);
        assert(entries_map(u) =~= entries_map(s).remove(s[i].0@));
    }
}

/// Two entry lists with the same keys and equal models of their values have the same model.
pub proof fn lemma_entries_map_congruent(s: Seq<(String, Data)>, t: Seq<(String, Data)>)
    requires
        s.len() == t.len(),
        forall|i: int| 0 <= i < s.len() ==> #[trigger] s[i].0@ == t[i].0@ && data_node(s[i].1) == data_node(t[i].1),
    ensures
        entries_map(s) == entries_map(t),
    decreases s.len(),
{
    if s.len() > 0 {
        assert forall|i: int| 0 <= i < s.drop_last().len() implies #[trigger] s.drop_last()[i].0@ == t.drop_last()[i].0@
            && data_node(s.drop_last()[i].1) == data_node(t.drop_last()[i].1) by {
            assert(s.drop_last()[i] == s[i] && t.drop_last()[i] == t[i]);
        }
        lemma_entries_map_congruent(s.drop_last(), t.drop_last());
        assert(s.last().0@ == t.last().0@);
        assert(data_node(s.last().1) == data_node(t.last().1));
    }
}

} // verus!

verus! {

/// Index of the entry whose key is `key`, if there is one.
pub fn find_entry(entries: &Vec<(String, Data)>, key: &String) -> (r: Option<usize>)
    ensures
        match r {
            Some(i) => i < entries.len() && entries@[i as int].0@ == key@,
            None => forall|i: int| 0 <= i < entries.len() ==> #[trigger] entries@[i].0@ != key@,
        },
{
    let mut i: usize = 0;
    while i < entries.len()
        invariant
            i <= entries.len(),
            forall|j: int| 0 <= j < i ==> #[trigger] entries@[j].0@ != key@,
        decreases entries.len() - i,
    {
        if entries[i].0 == *key {
            return Some(i);
        }
        i = i + 1;
    }
    None
}

/// Position at which an absent key goes so that the keys stay sorted.
pub fn insert_position(entries: &Vec<(String, Data)>, key: &String) -> (p: usize)
    requires
        keys_sorted(entries@),
        forall|i: int| 0 <= i < entries.len() ==> #[trigger] entries@[i].0@ != key@,
    ensures
        p <= entries.len(),
        forall|i: int| 0 <= i < p ==> key_lt(#[trigger] entries@[i].0@, key@),
        forall|i: int| p <= i < entries.len() ==> key_lt(key@, #[trigger] entries@[i].0@),
{
    let mut i: usize = 0;
    while i < entries.len() && key_less(entries[i].0.as_str(), key.as_str())
        invariant
            i <= entries.len(),
            forall|j: int| 0 <= j < i ==> key_lt(#[trigger] entries@[j].0@, key@),
        decreases entries.len() - i,
    {
        i = i + 1;
    }
    if i < entries.len() {
        let ghost k = entries@[i as int].0@;
        proof {
            lemma_key_lt_total(k, key@);
            assert forall|j: int| i <= j < entries.len() implies key_lt(key@, #[trigger] entries@[j].0@) by {
                if j > i {
                    lemma_key_lt_transitive(key@, k, entries@[j].0@);
                }
            }
        }
    }
    i
}

/// Inserting at the position `insert_position` gives keeps the keys sorted.
pub proof fn lemma_insert_sorted(s: Seq<(String, Data)>, p: int, e: (String, Data))
    requires
        keys_sorted(s),
        0 <= p <= s.len(),
        forall|i: int| 0 <= i < p ==> key_lt(#[trigger] s[i].0@, e.0@),
        forall|i: int| p <= i < s.len() ==> key_lt(e.0@, #[trigger] s[i].0@),
    ensures
        keys_sorted(s.insert(p, e)),
{
    let u = s.insert(p, e);
    assert forall|i: int, j: int| 0 <= i < j < u.len() implies key_lt(#[trigger] u[i].0@, #[trigger] u[j].0@) by {
        if j < p {
            assert(u[i] == s[i] && u[j] == s[j]);
        } else if j == p {
            assert(u[i] == s[i]);
        } else if i < p {
            assert(u[i] == s[i] && u[j] == s[j - 1]);
            lemma_key_lt_transitive(s[i].0@, e.0@, s[j - 1].0@);
        } else if i == p {
            assert(u[j] == s[j - 1]);
        } else {
            assert(u[i] == s[i - 1] && u[j] == s[j - 1]);
        }
    }
}

/// Replacing an entry by one with the same key keeps the keys sorted.
pub proof fn lemma_update_sorted(s: Seq<(String, Data)>, i: int, e: (String, Data))
    requires
        keys_sorted(s),
        0 <= i < s.len(),
        e.0@ == s[i].0@,
    ensures
        keys_sorted(s.update(i, e)),
{
    let u = s.update(i, e);
    assert forall|a: int, b: int| 0 <= a < b < u.len() implies key_lt(#[trigger] u[a].0@, #[trigger] u[b].0@) by {
        assert(u[a].0@ == s[a].0@ && u[b].0@ == s[b].0@);
    }
}

/// Removing an entry keeps the keys sorted.
pub proof fn lemma_remove_sorted(s: Seq<(String, Data)>, i: int)
    requires
        keys_sorted(s),
        0 <= i < s.len(),
    ensures
        keys_sorted(s.remove(i)),
{
    let u = s.remove(i);
    assert forall|a: int, b: int| 0 <= a < b < u.len() implies key_lt(#[trigger] u[a].0@, #[trigger] u[b].0@) by {
        let a2 = if a < i { a } else { a + 1 };
        let b2 = if b < i { b } else { b + 1 };
        assert(u[a] == s[a2] && u[b] == s[b2]);
    }
}

/// A copy of a stored value, with the same model.
pub fn copy_data(d: &Data) -> (r: Data)
    ensures
        data_node(r) == data_node(*d),
        data_wf(r) == data_wf(*d),
    decreases d,
{
    match d {
        Data::Value(s) => Data::Value(s.clone()),
        Data::Tree(v) => {
            let mut out: Vec<(String, Data)> = Vec::new();
            let mut i: usize = 0;
            while i < v.len()
                invariant
                    *d == Data::Tree(*v),
                    i <= v.len(),
                    out.len() == i,
                    forall|j: int| 0 <= j < i ==> (#[trigger] out@[j]).0@ == v@[j].0@
                        && data_node(out@[j].1) == data_node(v@[j].1)
                        && data_wf(out@[j].1) == data_wf(v@[j].1),
                decreases v.len() - i,
            {
                proof {
                    assert(decreases_to!(*d => d->Tree_0));
                    assert(decreases_to!(v => v@));
                    assert(decreases_to!(v@ => v@[i as int]));
                    assert(decreases_to!(v@[i as int] => v@[i as int].1));
                }
                let c = copy_data(&v[i].1);
                out.push((v[i].0.clone(), c));
                i = i + 1;
            }
            proof {
                lemma_entries_map_congruent(out@, v@);
                lemma_entries_wf_index(out@);
                lemma_entries_wf_index(v@);
                if entries_wf(v@) {
                    assert forall|j: int| 0 <= j < out.len() implies data_wf(#[trigger] out@[j].1) by {
                        assert(data_wf(v@[j].1));
                    }
                }
                if entries_wf(out@) {
                    assert forall|j: int| 0 <= j < v.len() implies data_wf(#[trigger] v@[j].1) by {
                        assert(data_wf(out@[j].1));
                    }
                }
                if keys_sorted(v@) {
                    assert forall|a: int, b: int| 0 <= a < b < out.len() implies key_lt(#[trigger] out@[a].0@, #[trigger] out@[b].0@) by {
                        assert(key_lt(v@[a].0@, v@[b].0@));
                    }
                }
                if keys_sorted(out@) {
                    assert forall|a: int, b: int| 0 <= a < b < v.len() implies key_lt(#[trigger] v@[a].0@, #[trigger] v@[b].0@) by {
                        assert(key_lt(out@[a].0@, out@[b].0@));
                    }
                }
            }
            Data::Tree(out)
        },
    }
}

} // verus!
