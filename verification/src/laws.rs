use vstd::prelude::*;
use crate::data::Node;
use crate::database::{
    command_log, command_tree, descend, lookup_path, parse_log_spec, remove_log_line, remove_path,
    remove_tree,
    replay, set_log_line, set_path, set_tree, value_not_found_message, Request, SetRequest,
};
use crate::text::{
    join_with, key_lt, lemma_join_nonempty, lemma_join_without, lemma_split_join, split_on,
    strip_line_end,
};
use crate::tools::{replace_char, without};

verus! {

/// A store can be written to the log and read back: no word holds a space, no tree name holds
/// a slash, the value does not end in a newline, and the path is not a single empty name
/// (which would be written as no path at all).
pub open spec fn set_loggable(p: SetRequest) -> bool {
    &&& !p.key.contains(' ')
    &&& !p.value.contains(' ')
    &&& !(p.value.len() > 0 && p.value.last() == '\n')
    &&& forall|i: int| 0 <= i < p.btrees.len() ==> !(#[trigger] p.btrees[i]).contains(' ') && !p.btrees[i].contains('/')
    &&& !(p.btrees.len() == 1 && p.btrees[0].len() == 0)
}

/// A removal can be written to the log and read back: it names at least one key, no key holds
/// a space or a slash, and the last key does not end in a newline.
pub open spec fn remove_loggable(path: Seq<Seq<char>>) -> bool {
    &&& path.len() >= 1
    &&& forall|i: int| 0 <= i < path.len() ==> !(#[trigger] path[i]).contains(' ') && !path[i].contains('/')
    &&& !(path.last().len() > 0 && path.last().last() == '\n')
}

/// Every command can be replayed from its log record.
pub open spec fn command_loggable(c: Request) -> bool {
    match c {
        Request::SetValue(p) => set_loggable(p),
        Request::Remove(path) => remove_loggable(path),
        _ => true,
    }
}

/// The tree after carrying out the commands in order.
pub open spec fn run_commands(t: Map<Seq<char>, Node>, cmds: Seq<Request>) -> Map<Seq<char>, Node>
    decreases cmds.len(),
{
    if cmds.len() == 0 {
        t
    } else {
        run_commands(command_tree(t, cmds[0]), cmds.drop_first())
    }
}

/// The log that the commands record, in order.
pub open spec fn commands_log(cmds: Seq<Request>) -> Seq<Seq<char>>
    decreases cmds.len(),
{
    if cmds.len() == 0 {
        Seq::empty()
    } else {
        command_log(cmds[0]) + commands_log(cmds.drop_first())
    }
}

proof fn lemma_literals()
    ensures
        "SET "@ == "SET"@ + " "@,
        "REM "@ == "REM"@ + " "@,
        " "@ == seq![' '],
        "/"@ == seq!['/'],
        !"SET"@.contains(' '),
        !"REM"@.contains(' '),
        "SET"@ != "REM"@,
{
    reveal_strlit("SET ");
    reveal_strlit("REM ");
    reveal_strlit("SET");
    reveal_strlit("REM");
    reveal_strlit(" ");
    reveal_strlit("/");
    assert("SET "@ =~= "SET"@ + " "@);
    assert("REM "@ =~= "REM"@ + " "@);
    assert(" "@ =~= seq![' ']);
    assert("/"@ =~= seq!['/']);
    assert("SET"@[0] != "REM"@[0]);
}

proof fn lemma_split_join_or_empty(parts: Seq<Seq<char>>, sep: char)
    requires
        forall|i: int| 0 <= i < parts.len() ==> !(#[trigger] parts[i]).contains(sep),
        !(parts.len() == 1 && parts[0].len() == 0),
    ensures
        (if join_with(parts, seq![sep]).len() > 0 {
            split_on(join_with(parts, seq![sep]), sep)
        } else {
            Seq::empty()
        }) == parts,
{
    if parts.len() >= 2 {
        lemma_join_nonempty(parts, seq![sep]);
        lemma_split_join(parts, sep);
    } else if parts.len() == 1 {
        lemma_split_join(parts, sep);
    } else {
        assert(parts =~= Seq::<Seq<char>>::empty());
    }
}

/// A store read back from the log line it wrote is the same store.
pub proof fn lemma_parse_set_line(p: SetRequest)
    requires
        set_loggable(p),
    ensures
        parse_log_spec(set_log_line(p)) == Request::SetValue(p),
{
    lemma_literals();
    let j = join_with(p.btrees, "/"@);
    let line = set_log_line(p);
    let words = seq!["SET"@, j, p.key, p.value];
    assert(!"/"@.contains(' ')) by {
        if "/"@.contains(' ') {
            let k = choose|k: int| 0 <= k < "/"@.len() && "/"@[k] == ' ';
            assert("/"@[0] == '/');
        }
    }
    lemma_join_without(p.btrees, "/"@, ' ');
    let w1 = seq!["SET"@];
    let w2 = w1.push(j);
    let w3 = w2.push(p.key);
    assert(words =~= w3.push(p.value));
    assert(w2.drop_last() =~= w1);
    assert(w3.drop_last() =~= w2);
    assert(words.drop_last() =~= w3);
    assert(join_with(w1, " "@) == "SET"@);
    assert(join_with(w2, " "@) == "SET"@ + " "@ + j);
    assert(join_with(w3, " "@) == "SET"@ + " "@ + j + " "@ + p.key);
    assert(join_with(words, " "@) == "SET"@ + " "@ + j + " "@ + p.key + " "@ + p.value);
    assert(join_with(words, " "@) =~= line);
    assert forall|i: int| 0 <= i < words.len() implies !(#[trigger] words[i]).contains(' ') by {
    }
    assert(line.len() > 0 && line.last() != '\n') by {
        if p.value.len() > 0 {
            assert(line.last() == p.value.last());
        } else {
            assert(line.last() == ' ');
        }
    }
    assert(strip_line_end(line) == line);
    lemma_split_join(words, ' ');
    let t = split_on(line, ' ');
    assert(t == words);
    let rest = t.drop_first();
    assert(rest.last() == p.value);
    assert(rest.drop_last()[0] == j);
    assert(rest.drop_last()[1] == p.key);
    assert(forall|i: int| 0 <= i < p.btrees.len() ==> !(#[trigger] p.btrees[i]).contains('/'));
    lemma_split_join_or_empty(p.btrees, '/');
}

/// A removal read back from the log line it wrote is the same removal.
pub proof fn lemma_parse_remove_line(path: Seq<Seq<char>>)
    requires
        remove_loggable(path),
    ensures
        parse_log_spec(remove_log_line(path)) == Request::Remove(path),
{
    lemma_literals();
    let j = join_with(path, "/"@);
    let line = remove_log_line(path);
    let words = seq!["REM"@, j];
    assert(!"/"@.contains(' ')) by {
        if "/"@.contains(' ') {
            let k = choose|k: int| 0 <= k < "/"@.len() && "/"@[k] == ' ';
            assert("/"@[0] == '/');
        }
    }
    lemma_join_without(path, "/"@, ' ');
    assert(words.drop_last() =~= seq!["REM"@]);
    assert(join_with(seq!["REM"@], " "@) == "REM"@);
    assert(join_with(words, " "@) == "REM"@ + " "@ + j);
    assert(join_with(words, " "@) =~= line);
    assert forall|i: int| 0 <= i < words.len() implies !(#[trigger] words[i]).contains(' ') by {
    }
    assert(line.len() > 0 && line.last() != '\n') by {
        if path.last().len() > 0 {
            if path.len() == 1 {
                assert(j == path[0]);
            } else {
                assert(j == join_with(path.drop_last(), "/"@) + "/"@ + path.last());
            }
            assert(line.last() == path.last().last());
        } else if path.len() == 1 {
            assert(j == path[0]);
            assert(line.last() == ' ');
        } else {
            assert(j == join_with(path.drop_last(), "/"@) + "/"@ + path.last());
            assert(line.last() == '/');
        }
    }
    assert(strip_line_end(line) == line);
    lemma_split_join(words, ' ');
    let t = split_on(line, ' ');
    assert(t == words);
    assert(t.drop_first()[0] == j);
    lemma_split_join(path, '/');
}

/// Replaying two logs one after the other is replaying them joined.
pub proof fn lemma_replay_append(t: Map<Seq<char>, Node>, a: Seq<Seq<char>>, b: Seq<Seq<char>>)
    ensures
        replay(t, a + b) == replay(replay(t, a), b),
    decreases a.len(),
{
    if a.len() > 0 {
        assert((a + b)[0] == a[0]);
        assert((a + b).drop_first() =~= a.drop_first() + b);
        lemma_replay_append(command_tree(t, parse_log_spec(a[0])), a.drop_first(), b);
    } else {
        assert(a + b =~= b);
    }
}

/// Replaying the log that a sequence of commands recorded rebuilds the tree those commands
/// built, from the same starting tree, when every store and removal can be read back from
/// its log line.
pub proof fn law_replay_rebuilds(t: Map<Seq<char>, Node>, cmds: Seq<Request>)
    requires
        forall|i: int| 0 <= i < cmds.len() ==> command_loggable(#[trigger] cmds[i]),
    ensures
        replay(t, commands_log(cmds)) == run_commands(t, cmds),
    decreases cmds.len(),
{
    if cmds.len() > 0 {
        let c = cmds[0];
        let rest = cmds.drop_first();
        assert forall|i: int| 0 <= i < rest.len() implies command_loggable(#[trigger] rest[i]) by {
            assert(rest[i] == cmds[i + 1]);
        }
        law_replay_rebuilds(command_tree(t, c), rest);
        lemma_replay_append(t, command_log(c), commands_log(rest));
        assert(command_loggable(cmds[0]));
        assert(commands_log(cmds) == command_log(c) + commands_log(rest));
        assert(run_commands(t, cmds) == run_commands(command_tree(t, c), rest));
        match c {
            Request::SetValue(p) => {
                lemma_parse_set_line(p);
                let l = command_log(c);
                assert(l.drop_first() =~= Seq::<Seq<char>>::empty());
                assert(replay(t, l) == replay(command_tree(t, parse_log_spec(l[0])), l.drop_first()));
            },
            Request::Remove(path) => {
                lemma_parse_remove_line(path);
                let l = command_log(c);
                assert(l.drop_first() =~= Seq::<Seq<char>>::empty());
                assert(replay(t, l) == replay(command_tree(t, parse_log_spec(l[0])), l.drop_first()));
            },
            _ => {
                assert(command_log(c) =~= Seq::<Seq<char>>::empty());
                assert(command_tree(t, c) == t);
            },
        }
    }
}

/// After a store succeeds, looking up its key under its path gives the stored value.
pub proof fn law_get_after_set(t: Map<Seq<char>, Node>, p: SetRequest)
    requires
        set_path(t, p.btrees, p.key, p.value) is Some,
    ensures
        lookup_path(set_tree(t, p), p.btrees.push(p.key)) == Ok::<Node, Seq<char>>(Node::Leaf(p.value)),
{
    lemma_descend_after_set(t, p.btrees, p.key, p.value);
    assert(p.btrees.push(p.key).drop_last() =~= p.btrees);
}

proof fn lemma_descend_after_set(t: Map<Seq<char>, Node>, bt: Seq<Seq<char>>, k: Seq<char>, v: Seq<char>)
    requires
        set_path(t, bt, k, v) is Some,
    ensures
        ({
            &&& descend(set_path(t, bt, k, v)->Some_0, bt) matches Ok(m)
            &&& m.contains_key(k)
            &&& m[k] == Node::Leaf(v)
        }),
    decreases bt.len(),
{
    if bt.len() > 0 {
        let sub = if t.contains_key(bt[0]) { t[bt[0]] } else { Node::Branch(Map::empty()) };
        match sub {
            Node::Branch(m) => {
                lemma_descend_after_set(m, bt.drop_first(), k, v);
            },
            Node::Leaf(_) => {},
        }
    }
}

/// After a store succeeds, removing its key under its path gives back the stored value, and a
/// lookup afterwards reports that no value is found under the key.
pub proof fn law_remove_after_set(t: Map<Seq<char>, Node>, p: SetRequest)
    requires
        set_path(t, p.btrees, p.key, p.value) is Some,
    ensures
        ({
            &&& remove_path(set_tree(t, p), p.btrees.push(p.key)) matches Ok((m, n))
            &&& n == Node::Leaf(p.value)
            &&& lookup_path(m, p.btrees.push(p.key)) == Err::<Node, Seq<char>>(value_not_found_message(p.key))
        }),
{
    lemma_remove_after_set(t, p.btrees, p.key, p.value);
    assert(p.btrees.push(p.key).drop_last() =~= p.btrees);
}

proof fn lemma_remove_after_set(t: Map<Seq<char>, Node>, bt: Seq<Seq<char>>, k: Seq<char>, v: Seq<char>)
    requires
        set_path(t, bt, k, v) is Some,
    ensures
        ({
            &&& remove_path(set_path(t, bt, k, v)->Some_0, bt.push(k)) matches Ok((m, n))
            &&& n == Node::Leaf(v)
            &&& descend(m, bt) matches Ok(m2)
            &&& !m2.contains_key(k)
        }),
    decreases bt.len(),
{
    let path = bt.push(k);
    if bt.len() == 0 {
        assert(path =~= seq![k]);
    } else {
        assert(path[0] == bt[0]);
        assert(path.drop_first() =~= bt.drop_first().push(k));
        let sub = if t.contains_key(bt[0]) { t[bt[0]] } else { Node::Branch(Map::empty()) };
        match sub {
            Node::Branch(m) => {
                lemma_remove_after_set(m, bt.drop_first(), k, v);
            },
            Node::Leaf(_) => {},
        }
    }
}

} // verus!

verus! {

/// Replaying the log line of a store that can be read back carries out that store.
pub proof fn law_replay_set_line(t: Map<Seq<char>, Node>, p: SetRequest)
    requires
        set_loggable(p),
    ensures
        replay(t, seq![set_log_line(p)]) == set_tree(t, p),
{
    lemma_parse_set_line(p);
    let l = seq![set_log_line(p)];
    assert(l.drop_first() =~= Seq::<Seq<char>>::empty());
    assert(replay(t, l) == replay(command_tree(t, parse_log_spec(l[0])), l.drop_first()));
}

/// Replaying the log line of a removal that can be read back carries out that removal.
pub proof fn law_replay_remove_line(t: Map<Seq<char>, Node>, path: Seq<Seq<char>>)
    requires
        remove_loggable(path),
    ensures
        replay(t, seq![remove_log_line(path)]) == remove_tree(t, path),
{
    lemma_parse_remove_line(path);
    let l = seq![remove_log_line(path)];
    assert(l.drop_first() =~= Seq::<Seq<char>>::empty());
    assert(replay(t, l) == replay(command_tree(t, parse_log_spec(l[0])), l.drop_first()));
}

/// Replaying what a command records carries out the command, when it can be read back.
pub proof fn law_replay_command_log(t: Map<Seq<char>, Node>, c: Request)
    requires
        command_loggable(c),
    ensures
        replay(t, command_log(c)) == command_tree(t, c),
{
    match c {
        Request::SetValue(p) => law_replay_set_line(t, p),
        Request::Remove(path) => law_replay_remove_line(t, path),
        _ => {
            assert(command_log(c) =~= Seq::<Seq<char>>::empty());
        },
    }
}

/// The logs of successive steps, one after another.
pub open spec fn joined_logs(logs: Seq<Seq<Seq<char>>>) -> Seq<Seq<char>>
    decreases logs.len(),
{
    if logs.len() == 0 {
        Seq::empty()
    } else {
        logs[0] + joined_logs(logs.drop_first())
    }
}

/// When replaying each step's log on the tree before the step gives the tree after it,
/// replaying all the logs one after another on the first tree gives the last tree. With the
/// `ensures` of `Database::set_value`, `remove_value` and `send_db_command_get_reponse`, this
/// says that the lines a database records over a run of calls rebuild its tree.
pub proof fn law_replay_chain(trees: Seq<Map<Seq<char>, Node>>, logs: Seq<Seq<Seq<char>>>)
    requires
        trees.len() == logs.len() + 1,
        forall|i: int| 0 <= i < logs.len() ==> replay(trees[i], #[trigger] logs[i]) == trees[i + 1],
    ensures
        replay(trees[0], joined_logs(logs)) == trees.last(),
    decreases logs.len(),
{
    if logs.len() > 0 {
        let t2 = trees.drop_first();
        let l2 = logs.drop_first();
        assert forall|i: int| 0 <= i < l2.len() implies replay(t2[i], #[trigger] l2[i]) == t2[i + 1] by {
            assert(l2[i] == logs[i + 1]);
            assert(t2[i] == trees[i + 1] && t2[i + 1] == trees[i + 2]);
        }
        law_replay_chain(t2, l2);
        lemma_replay_append(trees[0], logs[0], joined_logs(l2));
        assert(replay(trees[0], logs[0]) == trees[1]);
        assert(t2.last() == trees.last());
    }
}

} // verus!

verus! {

/// Two paths part somewhere: at some position both reach, they name different keys.
pub open spec fn paths_part(q: Seq<Seq<char>>, f: Seq<Seq<char>>) -> bool {
    exists|i: int| 0 <= i < q.len() && i < f.len() && q[i] != f[i]
}

/// Looking up a path of two or more keys first steps into the tree its first key names.
proof fn lemma_lookup_step(t: Map<Seq<char>, Node>, q: Seq<Seq<char>>)
    requires
        q.len() >= 2,
    ensures
        !t.contains_key(q[0]) ==> lookup_path(t, q) is Err,
        t.contains_key(q[0]) && t[q[0]] is Leaf ==> lookup_path(t, q) is Err,
        t.contains_key(q[0]) && t[q[0]] is Branch ==> lookup_path(t, q) == lookup_path(
            t[q[0]]->Branch_0,
            q.drop_first(),
        ),
{
    assert(q.drop_last()[0] == q[0]);
    assert(q.drop_last().drop_first() =~= q.drop_first().drop_last());
    assert(q.drop_first().last() == q.last());
}

/// Lookups agree in two trees whose entries for the path's first key agree.
proof fn lemma_lookup_same_first(t1: Map<Seq<char>, Node>, t2: Map<Seq<char>, Node>, q: Seq<Seq<char>>)
    requires
        q.len() >= 1,
        t1.contains_key(q[0]) == t2.contains_key(q[0]),
        t1.contains_key(q[0]) ==> t1[q[0]] == t2[q[0]],
    ensures
        lookup_path(t1, q) == lookup_path(t2, q),
{
    if q.len() >= 2 {
        lemma_lookup_step(t1, q);
        lemma_lookup_step(t2, q);
        if t1.contains_key(q[0]) && t1[q[0]] is Leaf {
            assert(q.drop_last()[0] == q[0]);
        } else if !t1.contains_key(q[0]) {
            assert(q.drop_last()[0] == q[0]);
        }
    } else {
        assert(q.drop_last() =~= Seq::<Seq<char>>::empty());
        assert(q.last() == q[0]);
    }
}

/// A store touches nothing off its own path: for every path that parts from the stored key's
/// path, a value found before the store is still found, unchanged, after it, and nothing is
/// found after it that was not found before. Siblings of the stored key, and every other
/// branch, keep their contents.
pub proof fn law_set_keeps_other_paths(t: Map<Seq<char>, Node>, p: SetRequest, q: Seq<Seq<char>>)
    requires
        set_path(t, p.btrees, p.key, p.value) is Some,
        q.len() > 0,
        paths_part(q, p.btrees.push(p.key)),
    ensures
        (lookup_path(set_tree(t, p), q) is Ok || lookup_path(t, q) is Ok) ==> lookup_path(
            set_tree(t, p),
            q,
        ) == lookup_path(t, q),
{
    lemma_set_keeps_other_paths(t, p.btrees, p.key, p.value, q);
}

proof fn lemma_set_keeps_other_paths(
    t: Map<Seq<char>, Node>,
    bt: Seq<Seq<char>>,
    k: Seq<char>,
    v: Seq<char>,
    q: Seq<Seq<char>>,
)
    requires
        set_path(t, bt, k, v) is Some,
        q.len() > 0,
        paths_part(q, bt.push(k)),
    ensures
        ({
            let t2 = set_path(t, bt, k, v)->Some_0;
            (lookup_path(t2, q) is Ok || lookup_path(t, q) is Ok) ==> lookup_path(t2, q)
                == lookup_path(t, q)
        }),
    decreases bt.len(),
{
    let f = bt.push(k);
    let t2 = set_path(t, bt, k, v)->Some_0;
    let i = choose|i: int| 0 <= i < q.len() && i < f.len() && q[i] != f[i];
    if bt.len() == 0 {
        assert(i == 0 && f[0] == k);
        lemma_lookup_same_first(t2, t, q);
    } else {
        assert(f[0] == bt[0]);
        if q[0] != bt[0] {
            lemma_lookup_same_first(t2, t, q);
        } else {
            assert(i >= 1);
            assert(q.len() >= 2);
            let sub = if t.contains_key(bt[0]) { t[bt[0]] } else { Node::Branch(Map::empty()) };
            let m = sub->Branch_0;
            let m2 = set_path(m, bt.drop_first(), k, v)->Some_0;
            assert(t2 == t.insert(bt[0], Node::Branch(m2)));
            let q2 = q.drop_first();
            let f2 = bt.drop_first().push(k);
            assert(f2 =~= f.drop_first());
            assert(q2[i - 1] == q[i] && f2[i - 1] == f[i]);
            assert(paths_part(q2, f2));
            lemma_set_keeps_other_paths(m, bt.drop_first(), k, v, q2);
            lemma_lookup_step(t2, q);
            lemma_lookup_step(t, q);
            if !t.contains_key(bt[0]) {
                assert(q2.drop_last() =~= q2.drop_last());
                lemma_lookup_empty(q2);
            }
        }
    }
}

proof fn lemma_lookup_empty(q: Seq<Seq<char>>)
    requires
        q.len() > 0,
    ensures
        lookup_path(Map::<Seq<char>, Node>::empty(), q) is Err,
{
    if q.len() >= 2 {
        lemma_lookup_step(Map::empty(), q);
    } else {
        assert(q.drop_last() =~= Seq::<Seq<char>>::empty());
    }
}

/// A removal takes away only the named key: every path that parts from the removed path looks
/// up the same before and after a successful removal, and the removed path itself is no longer
/// found. For a single key `k`, the tree afterwards is the tree without `k`.
pub proof fn law_remove_keeps_other_paths(t: Map<Seq<char>, Node>, path: Seq<Seq<char>>, q: Seq<Seq<char>>)
    requires
        remove_path(t, path) is Ok,
        q.len() > 0,
        paths_part(q, path),
    ensures
        lookup_path(remove_tree(t, path), q) == lookup_path(t, q),
    decreases path.len(),
{
    let t2 = remove_tree(t, path);
    let i = choose|i: int| 0 <= i < q.len() && i < path.len() && q[i] != path[i];
    if path.len() == 1 {
        assert(i == 0);
        lemma_lookup_same_first(t2, t, q);
    } else if q[0] != path[0] {
        lemma_lookup_same_first(t2, t, q);
    } else {
        assert(i >= 1 && q.len() >= 2);
        let m = t[path[0]]->Branch_0;
        let q2 = q.drop_first();
        let p2 = path.drop_first();
        assert(q2[i - 1] == q[i] && p2[i - 1] == path[i]);
        assert(paths_part(q2, p2));
        law_remove_keeps_other_paths(m, p2, q2);
        lemma_lookup_step(t2, q);
        lemma_lookup_step(t, q);
    }
}

/// Removing a single key from the top level leaves the tree without that key and nothing else
/// changed; after any successful removal the removed path is no longer found.
pub proof fn law_remove_takes_only_the_key(t: Map<Seq<char>, Node>, path: Seq<Seq<char>>)
    requires
        remove_path(t, path) is Ok,
    ensures
        path.len() == 1 ==> remove_tree(t, path) == t.remove(path[0]),
        lookup_path(remove_tree(t, path), path) is Err,
    decreases path.len(),
{
    if path.len() > 1 {
        let m = t[path[0]]->Branch_0;
        law_remove_takes_only_the_key(m, path.drop_first());
        lemma_lookup_step(remove_tree(t, path), path);
    } else {
        assert(path.drop_last() =~= Seq::<Seq<char>>::empty());
    }
}

} // verus!

verus! {

/// `a` and `b` agree on their first `i` characters, and then `a` ends where `b` goes on, or
/// `a` has the character with the smaller code point.
pub open spec fn first_difference_favours(a: Seq<char>, b: Seq<char>, i: int) -> bool {
    &&& 0 <= i <= a.len()
    &&& i <= b.len()
    &&& a.take(i) == b.take(i)
    &&& (i == a.len() && i < b.len()) || (i < a.len() && i < b.len() && (a[i] as int) < (b[i] as int))
}

/// The key order is the usual order of strings: `a` comes before `b` exactly when, after a
/// common beginning, `a` ends where `b` goes on, or `a` has the character with the smaller
/// code point at the first position where they differ.
pub proof fn law_key_order_is_string_order(a: Seq<char>, b: Seq<char>)
    ensures
        key_lt(a, b) <==> exists|i: int| #[trigger] first_difference_favours(a, b, i),
    decreases a.len(),
{
    assert(a.take(0) =~= b.take(0));
    if a.len() > 0 && b.len() > 0 && a[0] == b[0] {
        let a2 = a.drop_first();
        let b2 = b.drop_first();
        law_key_order_is_string_order(a2, b2);
        if key_lt(a, b) {
            let i2 = choose|i: int| #[trigger] first_difference_favours(a2, b2, i);
            let i = i2 + 1;
            assert(a.take(i) =~= seq![a[0]] + a2.take(i2));
            assert(b.take(i) =~= seq![b[0]] + b2.take(i2));
            assert(i < a.len() ==> a[i] == a2[i2]);
            assert(i < b.len() ==> b[i] == b2[i2]);
            assert(first_difference_favours(a, b, i));
        }
        if exists|i: int| #[trigger] first_difference_favours(a, b, i) {
            let i = choose|i: int| #[trigger] first_difference_favours(a, b, i);
            if i == 0 {
                assert(a[0] == b[0]);
            } else {
                let i2 = i - 1;
                assert(a2.take(i2) =~= a.take(i).drop_first());
                assert(b2.take(i2) =~= b.take(i).drop_first());
                assert(i2 < a2.len() ==> a2[i2] == a[i]);
                assert(i2 < b2.len() ==> b2[i2] == b[i]);
                assert(first_difference_favours(a2, b2, i2));
            }
        }
    } else if a.len() > 0 && b.len() > 0 {
        if key_lt(a, b) {
            assert(first_difference_favours(a, b, 0));
        }
        if exists|i: int| #[trigger] first_difference_favours(a, b, i) {
            let i = choose|i: int| #[trigger] first_difference_favours(a, b, i);
            if i > 0 {
                assert(a.take(i)[0] == b.take(i)[0]);
            }
        }
    } else if a.len() == 0 && b.len() > 0 {
        assert(first_difference_favours(a, b, 0));
    }
}

/// For one-character keys the key order is the order of the code points.
pub proof fn law_key_order_single_characters(c: char, d: char)
    ensures
        key_lt(seq![c], seq![d]) <==> (c as int) < (d as int),
{
    let a = seq![c];
    let b = seq![d];
    assert(a[0] == c && b[0] == d);
    assert(a.drop_first() =~= Seq::<char>::empty());
    assert(b.drop_first() =~= Seq::<char>::empty());
    assert(!key_lt(Seq::<char>::empty(), Seq::<char>::empty()));
}

/// Leaving out a character keeps every other character, in order: it is filtering by
/// "differs from the character".
pub proof fn law_without_is_filter(s: Seq<char>, c: char)
    ensures
        without(s, c) == s.filter(|x: char| x != c),
    decreases s.len(),
{
    reveal(Seq::filter);
    if s.len() > 0 {
        law_without_is_filter(s.drop_last(), c);
    } else {
        assert(s =~= Seq::<char>::empty());
    }
}

/// Replacing a character works piece by piece: the result for a text is the results for its
/// parts put together.
pub proof fn law_replace_char_concat(s1: Seq<char>, s2: Seq<char>, t: char, r: Seq<char>)
    ensures
        replace_char(s1 + s2, t, r) == replace_char(s1, t, r) + replace_char(s2, t, r),
    decreases s2.len(),
{
    if s2.len() == 0 {
        assert(s1 + s2 =~= s1);
        assert(replace_char(s1, t, r) + replace_char(s2, t, r) =~= replace_char(s1, t, r));
    } else {
        law_replace_char_concat(s1, s2.drop_last(), t, r);
        assert((s1 + s2).drop_last() =~= s1 + s2.drop_last());
        assert((s1 + s2).last() == s2.last());
        let a = replace_char(s1, t, r);
        let b = replace_char(s2.drop_last(), t, r);
        if s2.last() == t {
            assert(a + b + r =~= a + (b + r));
        } else {
            assert((a + b).push(s2.last()) =~= a + b.push(s2.last()));
        }
    }
}

/// On a single character, replacing gives the replacement for the target character and the
/// character itself for any other one.
pub proof fn law_replace_char_single(x: char, t: char, r: Seq<char>)
    ensures
        replace_char(seq![x], t, r) == if x == t {
            r
        } else {
            seq![x]
        },
{
    let s = seq![x];
    assert(s.last() == x);
    assert(s.drop_last() =~= Seq::<char>::empty());
    let e = Seq::<char>::empty();
    assert(replace_char(e, t, r) == e);
    assert(e + r =~= r);
    assert(e.push(x) =~= s);
    if x == t {
        assert(replace_char(s, t, r) == replace_char(s.drop_last(), t, r) + r);
    } else {
        assert(replace_char(s, t, r) == replace_char(s.drop_last(), t, r).push(x));
    }
}

/// A text without the target character comes back unchanged.
pub proof fn law_replace_char_keeps_others(s: Seq<char>, t: char, r: Seq<char>)
    requires
        !s.contains(t),
    ensures
        replace_char(s, t, r) == s,
    decreases s.len(),
{
    if s.len() > 0 {
        assert(!s.drop_last().contains(t)) by {
            if s.drop_last().contains(t) {
                let k = choose|k: int| 0 <= k < s.drop_last().len() && s.drop_last()[k] == t;
                assert(s[k] == t);
            }
        }
        law_replace_char_keeps_others(s.drop_last(), t, r);
        assert(s.last() != t) by {
            assert(s[s.len() - 1] == s.last());
        }
        assert(s.drop_last().push(s.last()) =~= s);
    }
}

} // verus!
