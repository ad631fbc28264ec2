use vstd::prelude::*;
use crate::data::{
    copy_data, data_node, data_wf, entries_map, find_entry, insert_position, keys_sorted,
    lemma_entries_map_absent, lemma_entries_map_index, lemma_entries_map_insert,
    lemma_entries_map_remove, lemma_entries_map_update, lemma_entries_wf_index, lemma_insert_sorted,
    lemma_remove_sorted, lemma_sorted_distinct, lemma_update_sorted, tree_wf, Data, Node,
};
use crate::laws::{
    command_loggable, law_replay_command_log, law_replay_remove_line, law_replay_set_line,
    remove_loggable, set_loggable,
};
use crate::text::{
    join_strings, join_with, key_lt, lemma_key_lt_asymmetric, lemma_key_lt_irreflexive, split_on,
    split_on_char, strip_line_end, trim_newline,
};

verus! {

/// The text of the error for a path through a key that names no entry.
pub open spec fn missing_tree_message(key: Seq<char>) -> Seq<char> {
    "Error: the tree for key "@ + key + ", does not exist."@
}

/// The text of the error for a path through a key that names a value.
pub open spec fn not_a_tree_message(key: Seq<char>) -> Seq<char> {
    "Error: the key "@ + key + ", is a value and not a tree!"@
}

/// The text of the error for a lookup of a key that the tree does not hold.
pub open spec fn value_not_found_message(key: Seq<char>) -> Seq<char> {
    "Error: Value not found under "@ + key
}

/// The text of the error for a store through a path that meets a value.
pub open spec fn value_in_path_message() -> Seq<char> {
    "Error: Got value when expecting tree.\n"@
}

/// The text of the error for removing a key that the tree does not hold.
pub open spec fn no_such_key_message() -> Seq<char> {
    "That key does not seem to exist!"@
}

/// Follows `path` through nested trees, giving the tree it ends at or the error met on the way.
pub open spec fn descend(t: Map<Seq<char>, Node>, path: Seq<Seq<char>>) -> Result<
    Map<Seq<char>, Node>,
    Seq<char>,
>
    decreases path.len(),
{
    if path.len() == 0 {
        Ok(t)
    } else if !t.contains_key(path[0]) {
        Err(missing_tree_message(path[0]))
    } else {
        match t[path[0]] {
            Node::Leaf(_) => Err(not_a_tree_message(path[0])),
            Node::Branch(m) => descend(m, path.drop_first()),
        }
    }
}

/// What a lookup of `path` gives: the value at its last key inside the tree named by the others.
pub open spec fn lookup_path(t: Map<Seq<char>, Node>, path: Seq<Seq<char>>) -> Result<Node, Seq<char>>
    recommends
        path.len() > 0,
{
    match descend(t, path.drop_last()) {
        Err(e) => Err(e),
        Ok(m) => if m.contains_key(path.last()) {
            Ok(m[path.last()])
        } else {
            Err(value_not_found_message(path.last()))
        },
    }
}

/// The tree after storing `value` under `key` inside the tree named by `btrees`, creating the
/// trees of the path that are missing; `None` when the path meets a value.
pub open spec fn set_path(
    t: Map<Seq<char>, Node>,
    btrees: Seq<Seq<char>>,
    key: Seq<char>,
    value: Seq<char>,
) -> Option<Map<Seq<char>, Node>>
    decreases btrees.len(),
{
    if btrees.len() == 0 {
        Some(t.insert(key, Node::Leaf(value)))
    } else {
        let sub = if t.contains_key(btrees[0]) {
            t[btrees[0]]
        } else {
            Node::Branch(Map::empty())
        };
        match sub {
            Node::Leaf(_) => None,
            Node::Branch(m) => match set_path(m, btrees.drop_first(), key, value) {
                None => None,
                Some(m2) => Some(t.insert(btrees[0], Node::Branch(m2))),
            },
        }
    }
}

/// The tree after removing the last key of `path` from the tree named by the others, with the
/// value removed; or the error met.
pub open spec fn remove_path(t: Map<Seq<char>, Node>, path: Seq<Seq<char>>) -> Result<
    (Map<Seq<char>, Node>, Node),
    Seq<char>,
>
    decreases path.len(),
{
    if path.len() <= 1 {
        if path.len() == 1 && t.contains_key(path[0]) {
            Ok((t.remove(path[0]), t[path[0]]))
        } else {
            Err(no_such_key_message())
        }
    } else if !t.contains_key(path[0]) {
        Err(missing_tree_message(path[0]))
    } else {
        match t[path[0]] {
            Node::Leaf(_) => Err(not_a_tree_message(path[0])),
            Node::Branch(m) => match remove_path(m, path.drop_first()) {
                Err(e) => Err(e),
                Ok((m2, n)) => Ok((t.insert(path[0], Node::Branch(m2)), n)),
            },
        }
    }
}

/// Keys in strictly increasing key order.
pub open spec fn strictly_sorted(s: Seq<Seq<char>>) -> bool {
    forall|i: int, j: int| 0 <= i < j < s.len() ==> key_lt(#[trigger] s[i], #[trigger] s[j])
}

/// The keys of a set in increasing key order (the order in which a sorted map lists them).
pub open spec fn key_listing(keys: Set<Seq<char>>) -> Seq<Seq<char>> {
    choose|s: Seq<Seq<char>>| strictly_sorted(s) && s.to_set() == keys
}

} // verus!

verus! {

/// Two strictly sorted key sequences with the same keys are the same sequence.
pub proof fn lemma_sorted_same_keys(a: Seq<Seq<char>>, b: Seq<Seq<char>>)
    requires
        strictly_sorted(a),
        strictly_sorted(b),
        a.to_set() == b.to_set(),
    ensures
        a == b,
    decreases a.len(),
{
    if a.len() == 0 {
        if b.len() > 0 {
            assert(b.to_set().contains(b[0]));
        }
        assert(a =~= b);
    } else {
        assert(a.to_set().contains(a[0]));
        let j = choose|j: int| 0 <= j < b.len() && b[j] == a[0];
        assert(b.to_set().contains(b[0]));
        let k = choose|k: int| 0 <= k < a.len() && a[k] == b[0];
        if j > 0 {
            assert(key_lt(b[0], b[j]));
            if k == 0 {
                lemma_key_lt_irreflexive(a[0]);
            } else {
                assert(key_lt(a[0], a[k]));
                lemma_key_lt_asymmetric(a[0], a[k]);
            }
        }
        assert(a[0] == b[0]);
        let a1 = a.drop_first();
        let b1 = b.drop_first();
        assert forall|x: Seq<char>| a1.to_set().contains(x) <==> b1.to_set().contains(x) by {
            if a1.to_set().contains(x) {
                let i = choose|i: int| 0 <= i < a1.len() && a1[i] == x;
                assert(a[i + 1] == x);
                assert(key_lt(a[0], a[i + 1]));
                lemma_key_lt_irreflexive(a[0]);
                assert(a.to_set().contains(x));
                let m = choose|m: int| 0 <= m < b.len() && b[m] == x;
                assert(m != 0);
                assert(b1[m - 1] == x);
            }
            if b1.to_set().contains(x) {
                let i = choose|i: int| 0 <= i < b1.len() && b1[i] == x;
                assert(b[i + 1] == x);
                assert(key_lt(b[0], b[i + 1]));
                lemma_key_lt_irreflexive(b[0]);
                assert(b.to_set().contains(x));
                let m = choose|m: int| 0 <= m < a.len() && a[m] == x;
                assert(m != 0);
                assert(a1[m - 1] == x);
            }
        }
        assert(a1.to_set() =~= b1.to_set());
        lemma_sorted_same_keys(a1, b1);
        assert(a =~= b) by {
            assert forall|i: int| 0 <= i < a.len() implies a[i] == b[i] by {
                if i > 0 {
                    assert(a[i] == a1[i - 1] && b[i] == b1[i - 1]);
                }
            }
        }
    }
}

/// A strictly sorted key sequence is the key listing of its own keys.
pub proof fn lemma_key_listing_of_sorted(s: Seq<Seq<char>>)
    requires
        strictly_sorted(s),
    ensures
        key_listing(s.to_set()) == s,
{
    let w = key_listing(s.to_set());
    assert(strictly_sorted(s) && s.to_set() == s.to_set());
    assert(strictly_sorted(w) && w.to_set() == s.to_set());
    lemma_sorted_same_keys(w, s);
}

/// The keys of a tree's entries, in the order in which they are stored.
pub open spec fn entry_keys(s: Seq<(String, Data)>) -> Seq<Seq<char>> {
    Seq::new(s.len(), |i: int| s[i].0@)
}

/// The stored order of a well-formed tree's keys is the key listing of its model's keys.
pub proof fn lemma_entry_keys_listing(s: Seq<(String, Data)>)
    requires
        keys_sorted(s),
    ensures
        key_listing(entries_map(s).dom()) == entry_keys(s),
        strictly_sorted(entry_keys(s)),
        entry_keys(s).to_set() == entries_map(s).dom(),
{
    let ks = entry_keys(s);
    lemma_sorted_distinct(s);
    assert forall|x: Seq<char>| entries_map(s).dom().contains(x) <==> ks.to_set().contains(x) by {
        if entries_map(s).dom().contains(x) {
            crate::data::lemma_entries_map_present(s, x);
            let i = choose|i: int| 0 <= i < s.len() && #[trigger] s[i].0@ == x;
            assert(ks[i] == x);
        }
        if ks.to_set().contains(x) {
            let i = choose|i: int| 0 <= i < ks.len() && ks[i] == x;
            lemma_entries_map_index(s, i);
        }
    }
    assert(entries_map(s).dom() =~= ks.to_set());
    assert(strictly_sorted(ks)) by {
        assert forall|i: int, j: int| 0 <= i < j < ks.len() implies key_lt(#[trigger] ks[i], #[trigger] ks[j]) by {
            assert(key_lt(s[i].0@, s[j].0@));
        }
    }
    lemma_key_listing_of_sorted(ks);
}

/// The keys of a tree's entries, cloned, in stored order.
pub fn entry_key_list(entries: &Vec<(String, Data)>) -> (r: Vec<String>)
    ensures
        r.deep_view() == entry_keys(entries@),
{
    let mut r: Vec<String> = Vec::new();
    let mut i: usize = 0;
    while i < entries.len()
        invariant
            i <= entries.len(),
            r.deep_view() == entry_keys(entries@).take(i as int),
        decreases entries.len() - i,
    {
        let ghost before = r.deep_view();
        r.push(entries[i].0.clone());
        assert(r.deep_view() =~= before.push(entries@[i as int].0@));
        assert(entry_keys(entries@).take(i + 1) =~= entry_keys(entries@).take(i as int).push(
            entries@[i as int].0@,
        ));
        i = i + 1;
    }
    assert(entry_keys(entries@).take(i as int) =~= entry_keys(entries@));
    r
}

} // verus!

verus! {

/// The parameters of a store: the key, its value, and the path of trees to store it in.
pub struct SetParameters {
    key: String,
    value: String,
    btrees: Vec<String>,
}

/// The model of [`SetParameters`].
pub struct SetRequest {
    pub key: Seq<char>,
    pub value: Seq<char>,
    pub btrees: Seq<Seq<char>>,
}

impl View for SetParameters {
    type V = SetRequest;

    closed spec fn view(&self) -> SetRequest {
        SetRequest { key: self.key@, value: self.value@, btrees: self.btrees.deep_view() }
    }
}

/// A copy of a list of strings.
pub fn copy_strings(v: &Vec<String>) -> (r: Vec<String>)
    ensures
        r.deep_view() == v.deep_view(),
{
    let mut r: Vec<String> = Vec::new();
    let mut i: usize = 0;
    while i < v.len()
        invariant
            i <= v.len(),
            r.deep_view() == v.deep_view().take(i as int),
        decreases v.len() - i,
    {
        let ghost before = r.deep_view();
        r.push(v[i].clone());
        assert(r.deep_view() =~= before.push(v@[i as int]@));
        assert(v.deep_view().take(i + 1) =~= v.deep_view().take(i as int).push(v@[i as int]@));
        i = i + 1;
    }
    assert(v.deep_view().take(i as int) =~= v.deep_view());
    r
}

impl SetParameters {
    /// Gathers the parameters of a store.
    pub fn new(key: String, value: String, btrees: Vec<String>) -> (r: SetParameters)
        ensures
            r@ == (SetRequest { key: key@, value: value@, btrees: btrees.deep_view() }),
    {
        SetParameters { key: key, value: value, btrees: btrees }
    }

    /// A copy of the key.
    pub fn get_key(&self) -> (r: String)
        ensures
            r@ == self@.key,
    {
        self.key.clone()
    }

    /// A copy of the value.
    pub fn get_value(&self) -> (r: String)
        ensures
            r@ == self@.value,
    {
        self.value.clone()
    }

    /// A copy of the path of trees.
    pub fn get_btrees(&self) -> (r: Vec<String>)
        ensures
            r.deep_view() == self@.btrees,
    {
        copy_strings(&self.btrees)
    }
}

/// A request to the database.
pub enum Command {
    Keys,
    Get(Vec<String>),
    SetValue(SetParameters),
    Remove(Vec<String>),
    Exit,
    Error(String),
}

/// The model of a [`Command`].
pub enum Request {
    Keys,
    Get(Seq<Seq<char>>),
    SetValue(SetRequest),
    Remove(Seq<Seq<char>>),
    Exit,
    Error(Seq<char>),
}

impl View for Command {
    type V = Request;

    open spec fn view(&self) -> Request {
        match self {
            Command::Keys => Request::Keys,
            Command::Get(p) => Request::Get(p.deep_view()),
            Command::SetValue(p) => Request::SetValue(p@),
            Command::Remove(p) => Request::Remove(p.deep_view()),
            Command::Exit => Request::Exit,
            Command::Error(m) => Request::Error(m@),
        }
    }
}

/// `prefix`, then `key`, then `suffix`.
fn message_around(prefix: &str, key: &String, suffix: &str) -> (r: String)
    ensures
        r@ == prefix@ + key@ + suffix@,
{
    let mut r = String::from_str(prefix);
    r.append(key.as_str());
    r.append(suffix);
    r
}

fn missing_tree_text(key: &String) -> (r: String)
    ensures
        r@ == missing_tree_message(key@),
{
    message_around("Error: the tree for key ", key, ", does not exist.")
}

fn not_a_tree_text(key: &String) -> (r: String)
    ensures
        r@ == not_a_tree_message(key@),
{
    message_around("Error: the key ", key, ", is a value and not a tree!")
}

fn value_not_found_text(key: &String) -> (r: String)
    ensures
        r@ == value_not_found_message(key@),
{
    let mut r = String::from_str("Error: Value not found under ");
    r.append(key.as_str());
    r
}

/// Storing into a fresh tree never meets a value.
pub proof fn lemma_set_path_fresh(btrees: Seq<Seq<char>>, key: Seq<char>, value: Seq<char>)
    ensures
        set_path(Map::empty(), btrees, key, value) is Some,
    decreases btrees.len(),
{
    if btrees.len() > 0 {
        lemma_set_path_fresh(btrees.drop_first(), key, value);
    }
}

proof fn lemma_deep_view_skip(v: Seq<Seq<char>>, i: int)
    requires
        0 <= i < v.len(),
    ensures
        v.skip(i)[0] == v[i],
        v.skip(i).drop_first() == v.skip(i + 1),
        v.skip(i).len() > 0,
{
    assert(v.skip(i).drop_first() =~= v.skip(i + 1));
}

/// Stores `value` under `key` in the tree reached by `btrees[i..]` from `entries`.
fn set_in(
    entries: &mut Vec<(String, Data)>,
    btrees: &Vec<String>,
    i: usize,
    key: String,
    value: String,
) -> (ok: bool)
    requires
        tree_wf(old(entries)@),
        i <= btrees.len(),
    ensures
        tree_wf(final(entries)@),
        match set_path(entries_map(old(entries)@), btrees.deep_view().skip(i as int), key@, value@) {
            Some(m) => ok && entries_map(final(entries)@) == m,
            None => !ok && entries_map(final(entries)@) == entries_map(old(entries)@),
        },
    decreases btrees.len() - i,
{
    let ghost old_entries = entries@;
    let ghost path = btrees.deep_view().skip(i as int);
    proof {
        lemma_sorted_distinct(entries@);
        lemma_entries_wf_index(entries@);
    }
    if i == btrees.len() {
        assert(path.len() == 0);
        let e = (key, Data::Value(value));
        match find_entry(entries, &e.0) {
            Some(j) => {
                proof {
                    lemma_entries_map_update(old_entries, j as int, e);
                    lemma_update_sorted(old_entries, j as int, e);
                }
                entries.set(j, e);
                proof {
                    lemma_entries_wf_index(entries@);
                    assert forall|x: int| 0 <= x < entries.len() implies data_wf(#[trigger] entries@[x].1) by {
                        if x != j {
                            assert(entries@[x] == old_entries[x]);
                        }
                    }
                }
            },
            None => {
                let p = insert_position(entries, &e.0);
                proof {
                    lemma_entries_map_insert(old_entries, p as int, e);
                    lemma_insert_sorted(old_entries, p as int, e);
                }
                entries.insert(p, e);
                proof {
                    lemma_entries_wf_index(entries@);
                    assert forall|x: int| 0 <= x < entries.len() implies data_wf(#[trigger] entries@[x].1) by {
                        if x < p {
                            assert(entries@[x] == old_entries[x]);
                        } else if x > p {
                            assert(entries@[x] == old_entries[x - 1]);
                        }
                    }
                }
            },
        }
        true
    } else {
        proof {
            lemma_deep_view_skip(btrees.deep_view(), i as int);
        }
        let name = &btrees[i];
        assert(path[0] == name@);
        match find_entry(entries, name) {
            Some(j) => {
                proof {
                    lemma_entries_map_index(old_entries, j as int);
                }
                let (k, d) = entries.remove(j);
                match d {
                    Data::Value(v) => {
                        entries.insert(j, (k, Data::Value(v)));
                        assert(entries@ =~= old_entries);
                        false
                    },
                    Data::Tree(mut inner) => {
                        assert(data_wf(old_entries[j as int].1));
                        let ghost old_inner = inner@;
                        let ok = set_in(&mut inner, btrees, i + 1, key, value);
                        let ghost e = (k, Data::Tree(inner));
                        proof {
                            lemma_entries_map_update(old_entries, j as int, e);
                            lemma_update_sorted(old_entries, j as int, e);
                        }
                        entries.insert(j, (k, Data::Tree(inner)));
                        assert(entries@ =~= old_entries.update(j as int, e));
                        proof {
                            lemma_entries_wf_index(entries@);
                            assert forall|x: int| 0 <= x < entries.len() implies data_wf(#[trigger] entries@[x].1) by {
                                if x != j {
                                    assert(entries@[x] == old_entries[x]);
                                }
                            }
                            if !ok {
                                assert(entries_map(old_entries).insert(name@, Node::Branch(entries_map(old_inner)))
                                    =~= entries_map(old_entries));
                            }
                        }
                        ok
                    },
                }
            },
            None => {
                proof {
                    lemma_entries_map_absent(old_entries, name@);
                    lemma_set_path_fresh(btrees.deep_view().skip(i + 1), key@, value@);
                }
                let mut inner: Vec<(String, Data)> = Vec::new();
                assert(entries_map(inner@) =~= Map::<Seq<char>, Node>::empty());
                let ok = set_in(&mut inner, btrees, i + 1, key, value);
                let p = insert_position(entries, name);
                let e = (name.clone(), Data::Tree(inner));
                proof {
                    lemma_entries_map_insert(old_entries, p as int, e);
                    lemma_insert_sorted(old_entries, p as int, e);
                }
                entries.insert(p, e);
                proof {
                    lemma_entries_wf_index(entries@);
                    assert forall|x: int| 0 <= x < entries.len() implies data_wf(#[trigger] entries@[x].1) by {
                        if x < p {
                            assert(entries@[x] == old_entries[x]);
                        } else if x > p {
                            assert(entries@[x] == old_entries[x - 1]);
                        }
                    }
                }
                ok
            },
        }
    }
}

} // verus!

verus! {

/// Removes the last key of `params[i..]` from the tree reached by the others from `entries`.
fn remove_in(entries: &mut Vec<(String, Data)>, params: &Vec<String>, i: usize) -> (r: Result<
    Data,
    String,
>)
    requires
        tree_wf(old(entries)@),
        i < params.len(),
    ensures
        tree_wf(final(entries)@),
        match remove_path(entries_map(old(entries)@), params.deep_view().skip(i as int)) {
            Ok((m, n)) => r is Ok && entries_map(final(entries)@) == m && data_node(r->Ok_0) == n
                && data_wf(r->Ok_0),
            Err(e) => r is Err && r->Err_0@ == e && entries_map(final(entries)@) == entries_map(
                old(entries)@,
            ),
        },
    decreases params.len() - i,
{
    let ghost old_entries = entries@;
    let ghost path = params.deep_view().skip(i as int);
    proof {
        lemma_sorted_distinct(entries@);
        lemma_entries_wf_index(entries@);
        lemma_deep_view_skip(params.deep_view(), i as int);
    }
    let name = &params[i];
    assert(path[0] == name@);
    if i + 1 == params.len() {
        assert(path.len() == 1);
        match find_entry(entries, name) {
            Some(j) => {
                proof {
                    lemma_entries_map_index(old_entries, j as int);
                    lemma_entries_map_remove(old_entries, j as int);
                    lemma_remove_sorted(old_entries, j as int);
                }
                let (_k, d) = entries.remove(j);
                proof {
                    lemma_entries_wf_index(entries@);
                    assert forall|x: int| 0 <= x < entries.len() implies data_wf(#[trigger] entries@[x].1) by {
                        if x < j {
                            assert(entries@[x] == old_entries[x]);
                        } else {
                            assert(entries@[x] == old_entries[x + 1]);
                        }
                    }
                }
                Ok(d)
            },
            None => {
                proof {
                    lemma_entries_map_absent(old_entries, name@);
                }
                Err(String::from_str("That key does not seem to exist!"))
            },
        }
    } else {
        match find_entry(entries, name) {
            None => {
                proof {
                    lemma_entries_map_absent(old_entries, name@);
                }
                Err(missing_tree_text(name))
            },
            Some(j) => {
                proof {
                    lemma_entries_map_index(old_entries, j as int);
                }
                let (k, d) = entries.remove(j);
                match d {
                    Data::Value(v) => {
                        entries.insert(j, (k, Data::Value(v)));
                        assert(entries@ =~= old_entries);
                        Err(not_a_tree_text(name))
                    },
                    Data::Tree(mut inner) => {
                        assert(data_wf(old_entries[j as int].1));
                        let ghost old_inner = inner@;
                        let r = remove_in(&mut inner, params, i + 1);
                        let ghost e = (k, Data::Tree(inner));
                        proof {
                            lemma_entries_map_update(old_entries, j as int, e);
                            lemma_update_sorted(old_entries, j as int, e);
                        }
                        entries.insert(j, (k, Data::Tree(inner)));
                        assert(entries@ =~= old_entries.update(j as int, e));
                        proof {
                            lemma_entries_wf_index(entries@);
                            assert forall|x: int| 0 <= x < entries.len() implies data_wf(#[trigger] entries@[x].1) by {
                                if x != j {
                                    assert(entries@[x] == old_entries[x]);
                                }
                            }
                            if r is Err {
                                assert(entries_map(old_entries).insert(name@, Node::Branch(entries_map(old_inner)))
                                    =~= entries_map(old_entries));
                            }
                        }
                        r
                    },
                }
            },
        }
    }
}

/// The tree after a store (unchanged when the store fails).
pub open spec fn set_tree(t: Map<Seq<char>, Node>, p: SetRequest) -> Map<Seq<char>, Node> {
    match set_path(t, p.btrees, p.key, p.value) {
        Some(m) => m,
        None => t,
    }
}

/// The reply to a store.
pub open spec fn set_reply(t: Map<Seq<char>, Node>, p: SetRequest) -> Seq<char> {
    if set_path(t, p.btrees, p.key, p.value) is Some {
        "Ok"@
    } else {
        value_in_path_message()
    }
}

/// The tree after a removal (unchanged when the removal fails).
pub open spec fn remove_tree(t: Map<Seq<char>, Node>, path: Seq<Seq<char>>) -> Map<Seq<char>, Node> {
    match remove_path(t, path) {
        Ok((m, _)) => m,
        Err(_) => t,
    }
}

/// The reply to a removal: the removed value, or the first key of the path when a tree was
/// removed, each followed by a newline; or the error.
pub open spec fn remove_reply(t: Map<Seq<char>, Node>, path: Seq<Seq<char>>) -> Seq<char> {
    match remove_path(t, path) {
        Ok((_, Node::Leaf(v))) => v + "\n"@,
        Ok((_, Node::Branch(_))) => path[0] + "\n"@,
        Err(e) => e,
    }
}

/// The log line that records a store.
pub open spec fn set_log_line(p: SetRequest) -> Seq<char> {
    "SET "@ + join_with(p.btrees, "/"@) + " "@ + p.key + " "@ + p.value
}

/// The log line that records a removal.
pub open spec fn remove_log_line(path: Seq<Seq<char>>) -> Seq<char> {
    "REM "@ + join_with(path, "/"@)
}

/// The log line that records a store.
pub fn set_log_text(parameters: &SetParameters) -> (line: String)
    ensures
        line@ == set_log_line(parameters@),
{
    let mut line = String::from_str("SET ");
    let joined = join_strings(&parameters.btrees, "/");
    line.append(joined.as_str());
    line.append(" ");
    line.append(parameters.key.as_str());
    line.append(" ");
    line.append(parameters.value.as_str());
    line
}

/// The log line that records a removal.
pub fn remove_log_text(parameters: &Vec<String>) -> (line: String)
    ensures
        line@ == remove_log_line(parameters.deep_view()),
{
    let mut line = String::from_str("REM ");
    let joined = join_strings(parameters, "/");
    line.append(joined.as_str());
    line
}

/// An in-memory tree database of text values, with the log of the changes it was asked to record.
pub struct Database {
    root: Vec<(String, Data)>,
    log: Vec<String>,
}

impl Database {
    #[verifier::type_invariant]
    spec fn inv(self) -> bool {
        tree_wf(self.root@)
    }

    /// The model of the stored tree.
    pub closed spec fn tree(&self) -> Map<Seq<char>, Node> {
        entries_map(self.root@)
    }

    /// The log lines recorded so far and not yet taken.
    pub closed spec fn log_lines(&self) -> Seq<Seq<char>> {
        self.log.deep_view()
    }

    /// An empty database with an empty log.
    pub fn new() -> (db: Database)
        ensures
            db.tree() == Map::<Seq<char>, Node>::empty(),
            db.log_lines() == Seq::<Seq<char>>::empty(),
    {
        let db = Database { root: Vec::new(), log: Vec::new() };
        assert(db.tree() =~= Map::<Seq<char>, Node>::empty());
        assert(db.log_lines() =~= Seq::<Seq<char>>::empty());
        db
    }

    /// Hands over the recorded log lines, oldest first, and forgets them.
    pub fn take_log_lines(&mut self) -> (lines: Vec<String>)
        ensures
            lines.deep_view() == old(self).log_lines(),
            final(self).log_lines() == Seq::<Seq<char>>::empty(),
            final(self).tree() == old(self).tree(),
    {
        proof {
            use_type_invariant(&*self);
        }
        let mut lines: Vec<String> = Vec::new();
        std::mem::swap(&mut lines, &mut self.log);
        assert(self.log_lines() =~= Seq::<Seq<char>>::empty());
        lines
    }

    /// The keys at the top level, in increasing key order.
    pub fn get_keys(&self) -> (keys: Vec<String>)
        ensures
            keys.deep_view() == key_listing(self.tree().dom()),
            strictly_sorted(keys.deep_view()),
            keys.deep_view().to_set() == self.tree().dom(),
    {
        proof {
            use_type_invariant(self);
            lemma_entry_keys_listing(self.root@);
        }
        entry_key_list(&self.root)
    }

    /// The value stored at `parameters`: the last key, looked up in the tree that the
    /// other keys name.
    pub fn get_value(&self, parameters: Vec<String>) -> (r: Result<Data, String>)
        requires
            parameters.len() > 0,
        ensures
            match lookup_path(self.tree(), parameters.deep_view()) {
                Ok(n) => r is Ok && data_node(r->Ok_0) == n && data_wf(r->Ok_0),
                Err(e) => r is Err && r->Err_0@ == e,
            },
    {
        proof {
            use_type_invariant(self);
        }
        let ghost path = parameters.deep_view();
        let n = parameters.len();
        let mut sub: &Vec<(String, Data)> = &self.root;
        let mut i: usize = 0;
        assert(path.subrange(0, n - 1) =~= path.drop_last());
        while i < n - 1
            invariant
                n == parameters.len(),
                n > 0,
                path == parameters.deep_view(),
                i <= n - 1,
                tree_wf(sub@),
                descend(self.tree(), path.drop_last()) == descend(
                    entries_map(sub@),
                    path.subrange(i as int, n - 1),
                ),
            decreases n - 1 - i,
        {
            let key = &parameters[i];
            let ghost rest = path.subrange(i as int, n - 1);
            assert(rest[0] == key@);
            assert(rest.drop_first() =~= path.subrange(i + 1, n - 1));
            proof {
                lemma_sorted_distinct(sub@);
                lemma_entries_wf_index(sub@);
            }
            match find_entry(sub, key) {
                None => {
                    proof {
                        lemma_entries_map_absent(sub@, key@);
                    }
                    return Err(missing_tree_text(key));
                },
                Some(j) => {
                    proof {
                        lemma_entries_map_index(sub@, j as int);
                    }
                    match &sub[j].1 {
                        Data::Value(_) => {
                            return Err(not_a_tree_text(key));
                        },
                        Data::Tree(m) => {
                            assert(data_wf(sub@[j as int].1));
                            sub = m;
                        },
                    }
                },
            }
            i = i + 1;
        }
        assert(path.subrange(i as int, n - 1) =~= Seq::<Seq<char>>::empty());
        let key = &parameters[n - 1];
        assert(path.last() == key@);
        proof {
            lemma_sorted_distinct(sub@);
            lemma_entries_wf_index(sub@);
        }
        match find_entry(sub, key) {
            None => {
                proof {
                    lemma_entries_map_absent(sub@, key@);
                }
                Err(value_not_found_text(key))
            },
            Some(j) => {
                proof {
                    lemma_entries_map_index(sub@, j as int);
                }
                Ok(copy_data(&sub[j].1))
            },
        }
    }

    fn record(&mut self, line: String)
        ensures
            final(self).log_lines() == old(self).log_lines().push(line@),
            final(self).tree() == old(self).tree(),
    {
        proof {
            use_type_invariant(&*self);
        }
        let ghost before = self.log.deep_view();
        let mut log: Vec<String> = Vec::new();
        std::mem::swap(&mut log, &mut self.log);
        log.push(line);
        self.log = log;
        assert(self.log.deep_view() =~= before.push(line@));
    }

    /// Stores a value at a path of trees, creating the missing trees; records the store in
    /// the log when `save_log_flag` is set, whether or not it succeeds.
    pub fn set_value(&mut self, parameters: SetParameters, save_log_flag: bool) -> (r: String)
        ensures
            final(self).tree() == set_tree(old(self).tree(), parameters@),
            r@ == set_reply(old(self).tree(), parameters@),
            final(self).log_lines() == if save_log_flag {
                old(self).log_lines().push(set_log_line(parameters@))
            } else {
                old(self).log_lines()
            },
            set_loggable(parameters@) ==> replay(old(self).tree(), seq![set_log_line(parameters@)])
                == final(self).tree(),
    {
        proof {
            if set_loggable(parameters@) {
                law_replay_set_line(self.tree(), parameters@);
            }
        }
        proof {
            use_type_invariant(&*self);
        }
        if save_log_flag {
            let line = set_log_text(&parameters);
            self.record(line);
        }
        proof {
            use_type_invariant(&*self);
        }
        let mut root: Vec<(String, Data)> = Vec::new();
        std::mem::swap(&mut root, &mut self.root);
        let SetParameters { key, value, btrees } = parameters;
        assert(btrees.deep_view().skip(0) =~= btrees.deep_view());
        let ok = set_in(&mut root, &btrees, 0, key, value);
        self.root = root;
        if ok {
            String::from_str("Ok")
        } else {
            String::from_str("Error: Got value when expecting tree.\n")
        }
    }

    /// Removes the value or tree at a path; records the removal in the log when
    /// `save_log_flag` is set, whether or not it succeeds.
    pub fn remove_value(&mut self, parameters: Vec<String>, save_log_flag: bool) -> (r: String)
        requires
            parameters.len() > 0,
        ensures
            final(self).tree() == remove_tree(old(self).tree(), parameters.deep_view()),
            r@ == remove_reply(old(self).tree(), parameters.deep_view()),
            final(self).log_lines() == if save_log_flag {
                old(self).log_lines().push(remove_log_line(parameters.deep_view()))
            } else {
                old(self).log_lines()
            },
            remove_loggable(parameters.deep_view()) ==> replay(
                old(self).tree(),
                seq![remove_log_line(parameters.deep_view())],
            ) == final(self).tree(),
    {
        proof {
            if remove_loggable(parameters.deep_view()) {
                law_replay_remove_line(self.tree(), parameters.deep_view());
            }
        }
        proof {
            use_type_invariant(&*self);
        }
        if save_log_flag {
            let line = remove_log_text(&parameters);
            self.record(line);
        }
        proof {
            use_type_invariant(&*self);
        }
        let mut root: Vec<(String, Data)> = Vec::new();
        std::mem::swap(&mut root, &mut self.root);
        assert(parameters.deep_view().skip(0) =~= parameters.deep_view());
        let removed = remove_in(&mut root, &parameters, 0);
        self.root = root;
        match removed {
            Err(e) => e,
            Ok(Data::Value(v)) => {
                let mut r = v;
                r.append("\n");
                r
            },
            Ok(Data::Tree(_)) => {
                let mut r = parameters[0].clone();
                r.append("\n");
                r
            },
        }
    }
}

} // verus!

verus! {

/// What `{:?}` prints for a list of strings: each string quoted, with the characters that
/// `str::escape_debug` escapes escaped, separated by `", "` and enclosed in `[` `]`.
pub uninterp spec fn debug_text(items: Seq<Seq<char>>) -> Seq<char>;

/// Formats a list of strings with `{:?}`, that is `<Vec<String> as Debug>::fmt`. Trusted: the
/// contract claims that the text depends on the strings' characters alone, and names it
/// `debug_text`; what that text is, character by character, is not stated.
#[verifier::external_body]
fn debug_listing(items: &Vec<String>) -> (r: String)
    ensures
        r@ == debug_text(items.deep_view()),
{
    format!("{:?}", items)
}

/// The reply that lists the top-level keys, given their `{:?}` listing.
pub open spec fn keys_reply_text(listing: Seq<char>) -> Seq<char> {
    "The database keys are: "@ + listing + "\n"@
}

/// The reply that lists the keys of a requested tree, given their `{:?}` listing.
pub open spec fn tree_keys_reply_text(listing: Seq<char>) -> Seq<char> {
    "The keys of the requested tree are: "@ + listing + "\n"@
}

/// The reply that lists the top-level keys, given their `{:?}` listing.
pub fn keys_reply(listing: &str) -> (r: String)
    ensures
        r@ == keys_reply_text(listing@),
{
    let mut r = String::from_str("The database keys are: ");
    r.append(listing);
    r.append("\n");
    r
}

/// The reply that lists the keys of a requested tree, given their `{:?}` listing.
pub fn tree_keys_reply(listing: &str) -> (r: String)
    ensures
        r@ == tree_keys_reply_text(listing@),
{
    let mut r = String::from_str("The keys of the requested tree are: ");
    r.append(listing);
    r.append("\n");
    r
}

/// The reply to a lookup: the value followed by a newline, the listing of a tree's keys, or
/// the error.
pub open spec fn get_reply(t: Map<Seq<char>, Node>, path: Seq<Seq<char>>) -> Seq<char> {
    match lookup_path(t, path) {
        Err(e) => e,
        Ok(Node::Leaf(v)) => v + "\n"@,
        Ok(Node::Branch(m)) => tree_keys_reply_text(debug_text(key_listing(m.dom()))),
    }
}

/// The tree after a command.
pub open spec fn command_tree(t: Map<Seq<char>, Node>, c: Request) -> Map<Seq<char>, Node> {
    match c {
        Request::SetValue(p) => set_tree(t, p),
        Request::Remove(path) => remove_tree(t, path),
        _ => t,
    }
}

/// The reply to a command; none for `Exit`, which asks the caller to stop.
pub open spec fn command_reply(t: Map<Seq<char>, Node>, c: Request) -> Option<Seq<char>> {
    match c {
        Request::Keys => Some(keys_reply_text(debug_text(key_listing(t.dom())))),
        Request::Get(path) => Some(get_reply(t, path)),
        Request::SetValue(p) => Some(set_reply(t, p)),
        Request::Remove(path) => Some(remove_reply(t, path)),
        Request::Exit => None,
        Request::Error(m) => Some(m),
    }
}

/// The log lines that a command records when logging is asked for.
pub open spec fn command_log(c: Request) -> Seq<Seq<char>> {
    match c {
        Request::SetValue(p) => seq![set_log_line(p)],
        Request::Remove(path) => seq![remove_log_line(path)],
        _ => Seq::empty(),
    }
}

/// Lookups and removals name at least one key.
pub open spec fn command_well_formed(c: Request) -> bool {
    match c {
        Request::Get(path) => path.len() > 0,
        Request::Remove(path) => path.len() > 0,
        _ => true,
    }
}

impl Database {
    /// Carries out a command and gives its reply; `None` for `Exit`, on which the caller stops.
    /// Stores and removals are recorded in the log when `save_log_flag` is set.
    pub fn send_db_command_get_reponse(&mut self, command: Command, save_log_flag: bool) -> (r:
        Option<String>)
        requires
            command_well_formed(command@),
        ensures
            final(self).tree() == command_tree(old(self).tree(), command@),
            match command_reply(old(self).tree(), command@) {
                Some(text) => r is Some && r->Some_0@ == text,
                None => r is None,
            },
            final(self).log_lines() == if save_log_flag {
                old(self).log_lines() + command_log(command@)
            } else {
                old(self).log_lines()
            },
            command_loggable(command@) ==> replay(old(self).tree(), command_log(command@))
                == final(self).tree(),
            command@ is Keys ==> strictly_sorted(key_listing(old(self).tree().dom()))
                && key_listing(old(self).tree().dom()).to_set() == old(self).tree().dom(),
    {
        proof {
            if command_loggable(command@) {
                law_replay_command_log(self.tree(), command@);
            }
        }
        let ghost old_log = self.log_lines();
        match command {
            Command::Error(msg) => {
                assert(old_log + command_log(command@) =~= old_log);
                Some(msg)
            },
            Command::Keys => {
                let keys = self.get_keys();
                let listing = debug_listing(&keys);
                assert(old_log + command_log(command@) =~= old_log);
                Some(keys_reply(listing.as_str()))
            },
            Command::Get(parameters) => {
                assert(old_log + command_log(command@) =~= old_log);
                match self.get_value(parameters) {
                    Err(error_string) => Some(error_string),
                    Ok(Data::Value(val)) => {
                        let mut r = val;
                        r.append("\n");
                        Some(r)
                    },
                    Ok(Data::Tree(m)) => {
                        proof {
                            lemma_entry_keys_listing(m@);
                        }
                        let keys = entry_key_list(&m);
                        let listing = debug_listing(&keys);
                        Some(tree_keys_reply(listing.as_str()))
                    },
                }
            },
            Command::SetValue(parameters) => {
                assert(old_log.push(set_log_line(parameters@)) =~= old_log + command_log(command@));
                Some(self.set_value(parameters, save_log_flag))
            },
            Command::Remove(parameters) => {
                assert(old_log.push(remove_log_line(parameters.deep_view())) =~= old_log
                    + command_log(command@));
                Some(self.remove_value(parameters, save_log_flag))
            },
            Command::Exit => {
                assert(old_log + command_log(command@) =~= old_log);
                None
            },
        }
    }
}

} // verus!

verus! {

/// The words of a log line, once its line end is stripped.
pub open spec fn log_tokens(line: Seq<char>) -> Seq<Seq<char>> {
    split_on(strip_line_end(line), ' ')
}

/// A log line that can be read without running out of words: a `SET` line has at least
/// three words after `SET`, a `REM` line at least one after `REM`.
pub open spec fn log_line_readable(line: Seq<char>) -> bool {
    let t = log_tokens(line);
    &&& t[0] == "SET"@ ==> t.len() >= 4
    &&& t[0] == "REM"@ ==> t.len() >= 2
}

/// The command that a log line records.
pub open spec fn parse_log_spec(line: Seq<char>) -> Request {
    let t = log_tokens(line);
    let rest = t.drop_first();
    if t[0] == "SET"@ {
        let value = rest.last();
        let words = rest.drop_last();
        let btrees = if words[0].len() > 0 {
            split_on(words[0], '/')
        } else {
            Seq::empty()
        };
        Request::SetValue(SetRequest { key: words[1], value: value, btrees: btrees })
    } else if t[0] == "REM"@ {
        Request::Remove(split_on(rest[0], '/'))
    } else {
        Request::Error("Error: Command not found while parsing log!"@)
    }
}

/// Reads the command that a log line records.
pub fn parse_log_line(log_line: String) -> (c: Command)
    requires
        log_line_readable(log_line@),
    ensures
        c@ == parse_log_spec(log_line@),
{
    let mut log_line = log_line;
    trim_newline(&mut log_line);
    let mut input_vec = split_on_char(log_line.as_str(), ' ');
    proof {
        crate::text::lemma_split_on_nonempty(log_line@, ' ');
    }
    let ghost t = input_vec.deep_view();
    let head = input_vec.remove(0);
    assert(input_vec.deep_view() =~= t.drop_first());
    if head == String::from_str("SET") {
        let value = input_vec.pop().unwrap();
        assert(input_vec.deep_view() =~= t.drop_first().drop_last());
        let btrees = if input_vec[0].as_str().unicode_len() > 0 {
            split_on_char(input_vec[0].as_str(), '/')
        } else {
            Vec::new()
        };
        assert(btrees.deep_view() =~= (if input_vec@[0]@.len() > 0 {
            split_on(input_vec@[0]@, '/')
        } else {
            Seq::empty()
        }));
        let key = input_vec.remove(1);
        Command::SetValue(SetParameters::new(key, value, btrees))
    } else if head == String::from_str("REM") {
        Command::Remove(split_on_char(input_vec[0].as_str(), '/'))
    } else {
        Command::Error(String::from_str("Error: Command not found while parsing log!"))
    }
}

/// Which requests a log line can come back as never lacks a key to look at.
pub proof fn lemma_parsed_well_formed(line: Seq<char>)
    requires
        log_line_readable(line),
    ensures
        command_well_formed(parse_log_spec(line)),
        !(parse_log_spec(line) is Exit),
{
    let t = log_tokens(line);
    crate::text::lemma_split_on_nonempty(strip_line_end(line), ' ');
    if t[0] == "REM"@ && t[0] != "SET"@ {
        crate::text::lemma_split_on_nonempty(t.drop_first()[0], '/');
    }
}

/// The tree after carrying out the commands of the log lines, in order.
pub open spec fn replay(t: Map<Seq<char>, Node>, lines: Seq<Seq<char>>) -> Map<Seq<char>, Node>
    decreases lines.len(),
{
    if lines.len() == 0 {
        t
    } else {
        replay(command_tree(t, parse_log_spec(lines[0])), lines.drop_first())
    }
}

impl Database {
    /// Carries out the commands recorded in log lines, oldest first, without recording them again.
    pub fn restore_from_log(&mut self, lines: Vec<String>)
        requires
            forall|i: int| 0 <= i < lines.len() ==> log_line_readable(#[trigger] lines@[i]@),
        ensures
            final(self).tree() == replay(old(self).tree(), lines.deep_view()),
            final(self).log_lines() == old(self).log_lines(),
    {
        let ghost all = lines.deep_view();
        let mut i: usize = 0;
        assert(all.skip(0) =~= all);
        while i < lines.len()
            invariant
                i <= lines.len(),
                all == lines.deep_view(),
                forall|k: int| 0 <= k < lines.len() ==> log_line_readable(#[trigger] lines@[k]@),
                replay(old(self).tree(), all) == replay(self.tree(), all.skip(i as int)),
                self.log_lines() == old(self).log_lines(),
            decreases lines.len() - i,
        {
            let line = lines[i].clone();
            assert(all.skip(i as int)[0] == line@);
            assert(all.skip(i as int).drop_first() =~= all.skip(i + 1));
            assert(log_line_readable(lines@[i as int]@));
            proof {
                lemma_parsed_well_formed(line@);
            }
            let command = parse_log_line(line);
            let _ = self.send_db_command_get_reponse(command, false);
            i = i + 1;
        }
    }
}

} // verus!

verus! {

/// Whether a log line can be read without running out of words.
pub fn log_line_is_readable(line: &String) -> (r: bool)
    ensures
        r == log_line_readable(line@),
{
    let mut text = line.clone();
    trim_newline(&mut text);
    let words = split_on_char(text.as_str(), ' ');
    proof {
        crate::text::lemma_split_on_nonempty(text@, ' ');
    }
    let head = &words[0];
    if *head == String::from_str("SET") {
        words.len() >= 4
    } else if *head == String::from_str("REM") {
        words.len() >= 2
    } else {
        true
    }
}

} // verus!

verus! {

/// The log lines that a command records when logging is asked for.
pub fn command_log_lines(command: &Command) -> (lines: Vec<String>)
    ensures
        lines.deep_view() == command_log(command@),
{
    let mut lines: Vec<String> = Vec::new();
    match command {
        Command::SetValue(parameters) => {
            lines.push(set_log_text(parameters));
            assert(lines.deep_view() =~= command_log(command@));
        },
        Command::Remove(parameters) => {
            lines.push(remove_log_text(parameters));
            assert(lines.deep_view() =~= command_log(command@));
        },
        _ => {
            assert(lines.deep_view() =~= command_log(command@));
        },
    }
    lines
}

} // verus!
