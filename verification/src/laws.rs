use super::handler::{CompleteHandler, ExecHandler};
use super::tokens::{joined, lemma_tokens_of_joined, tokens_of, valid_tokens};
use super::trie::{
    has_dyn, key_index_from, leaf_chain, lemma_key_index_from, sentinel_args, spec_complete,
    spec_exec, spec_invoke_complete, spec_invoke_exec, CommandModel, TrieModel,
};
use vstd::prelude::*;

verus! {

/// The position a key search returns is -1 or a position of the searched
/// key.
proof fn lemma_key_index_bounds<EM, CM>(t: TrieModel<EM, CM>, tok: Seq<char>)
    ensures
        t.key_index(tok) == -1 || (0 <= t.key_index(tok) < t.commands.len() && t.commands[
            t.key_index(tok)
        ].0 == tok),
{
    lemma_key_index_from(t.commands, tok, 0);
}

/// Positions found by key search depend on the keys alone, not on the
/// subtries behind them.
proof fn lemma_key_index_from_same_keys<EM, CM>(
    s1: Seq<(Seq<char>, TrieModel<EM, CM>)>,
    s2: Seq<(Seq<char>, TrieModel<EM, CM>)>,
    tok: Seq<char>,
    i: int,
)
    requires
        s1.len() == s2.len(),
        forall|k: int| 0 <= k < s1.len() ==> (#[trigger] s1[k]).0 == s2[k].0,
    ensures
        key_index_from(s1, tok, i) == key_index_from(s2, tok, i),
    decreases s1.len() - i,
{
    if 0 <= i < s1.len() {
        lemma_key_index_from_same_keys(s1, s2, tok, i + 1);
    }
}

/// Key search over a run that holds no match ends at a key appended behind
/// it.
proof fn lemma_key_index_push<EM, CM>(
    s: Seq<(Seq<char>, TrieModel<EM, CM>)>,
    p: (Seq<char>, TrieModel<EM, CM>),
    tok: Seq<char>,
    i: int,
)
    requires
        0 <= i <= s.len(),
        key_index_from(s, tok, i) == -1,
        p.0 == tok,
    ensures
        key_index_from(s.push(p), tok, i) == s.len(),
    decreases s.len() - i,
{
    if i < s.len() {
        lemma_key_index_push(s, p, tok, i + 1);
    }
}

/// A fresh chain built for a path carries its command at the end of exactly
/// that path.
proof fn lemma_leaf_chain_handler_at<EM, CM>(path: Seq<Seq<char>>, cmd: CommandModel<EM, CM>)
    ensures
        leaf_chain(path, cmd).handler_at(path) == Some(cmd),
    decreases path.len(),
{
    if path.len() > 0 {
        let t = leaf_chain(path, cmd);
        assert(t.commands == seq![(path[0], leaf_chain(path.drop_first(), cmd))]);
        assert(t.key_index(path[0]) == 0);
        lemma_leaf_chain_handler_at(path.drop_first(), cmd);
    }
}

/// Replacing a node's handler keeps it well-formed.
proof fn lemma_wf_handler<EM, CM>(t: TrieModel<EM, CM>, h: Option<CommandModel<EM, CM>>)
    requires
        t.wf(),
    ensures
        (TrieModel { handler: h, ..t }).wf(),
{
    let t2 = TrieModel { handler: h, ..t };
    assert forall|i: int| 0 <= i < t2.commands.len() implies (#[trigger] t2.commands[i]).1.wf() by {
        assert(t.commands[i].1.wf());
    }
}

/// Replacing one child under its own key keeps a node well-formed, provided
/// the new subtrie is.
proof fn lemma_wf_update<EM, CM>(t: TrieModel<EM, CM>, ki: int, sub: TrieModel<EM, CM>)
    requires
        t.wf(),
        0 <= ki < t.commands.len(),
        sub.wf(),
    ensures
        (TrieModel { commands: t.commands.update(ki, (t.commands[ki].0, sub)), ..t }).wf(),
{
    let t2 = TrieModel { commands: t.commands.update(ki, (t.commands[ki].0, sub)), ..t };
    assert forall|i: int, j: int| 0 <= i < j < t2.commands.len() implies t2.commands[i].0
        != t2.commands[j].0 by {
        assert(t2.commands[i].0 == t.commands[i].0);
        assert(t2.commands[j].0 == t.commands[j].0);
    }
    assert forall|i: int| 0 <= i < t2.commands.len() implies (#[trigger] t2.commands[i]).1.wf() by {
        if i != ki {
            assert(t.commands[i].1.wf());
        }
    }
}

/// Appending a child under a key no child holds keeps a node well-formed,
/// provided the new subtrie is.
proof fn lemma_wf_push<EM, CM>(t: TrieModel<EM, CM>, key: Seq<char>, sub: TrieModel<EM, CM>)
    requires
        t.wf(),
        sub.wf(),
        key_index_from(t.commands, key, 0) == -1,
    ensures
        (TrieModel { commands: t.commands.push((key, sub)), ..t }).wf(),
{
    lemma_key_index_from(t.commands, key, 0);
    let t2 = TrieModel { commands: t.commands.push((key, sub)), ..t };
    assert forall|i: int, j: int| 0 <= i < j < t2.commands.len() implies t2.commands[i].0
        != t2.commands[j].0 by {
        if j < t.commands.len() {
            assert(t.commands[i].0 != t.commands[j].0);
        } else {
            assert((#[trigger] t.commands[i]).0 != key);
        }
    }
    assert forall|i: int| 0 <= i < t2.commands.len() implies (#[trigger] t2.commands[i]).1.wf() by {
        if i < t.commands.len() {
            assert(t.commands[i].1.wf());
        }
    }
}

/// A fresh chain of nodes is well-formed.
proof fn lemma_leaf_chain_wf<EM, CM>(path: Seq<Seq<char>>, cmd: CommandModel<EM, CM>)
    ensures
        leaf_chain(path, cmd).wf(),
    decreases path.len(),
{
    if path.len() > 0 {
        lemma_leaf_chain_wf(path.drop_first(), cmd);
    }
}

/// LAW (invariant preservation): registration keeps the trie well-formed —
/// the child keys of every node stay pairwise distinct.
pub proof fn lemma_register_preserves_wf<EM, CM>(
    t: TrieModel<EM, CM>,
    path: Seq<Seq<char>>,
    cmd: CommandModel<EM, CM>,
)
    requires
        t.wf(),
    ensures
        t.spec_register(path, cmd).wf(),
    decreases path.len(),
{
    if path.len() == 0 {
        lemma_wf_handler(t, Some(cmd));
    } else {
        let ki = t.key_index(path[0]);
        lemma_key_index_bounds(t, path[0]);
        if ki >= 0 {
            assert(t.commands[ki].1.wf());
            lemma_register_preserves_wf(t.commands[ki].1, path.drop_first(), cmd);
            assert(t.commands[ki].0 == path[0]);
            lemma_wf_update(t, ki, t.commands[ki].1.spec_register(path.drop_first(), cmd));
        } else {
            lemma_leaf_chain_wf(path.drop_first(), cmd);
            lemma_wf_push(t, path[0], leaf_chain(path.drop_first(), cmd));
        }
    }
}

/// LAW (invariant preservation): execution keeps the trie well-formed.
pub proof fn lemma_exec_preserves_wf<E: ExecHandler, C: CompleteHandler>(
    t: TrieModel<E::Model, C::Model>,
    rel: Seq<Seq<char>>,
    full: Seq<Seq<char>>,
)
    requires
        t.wf(),
    ensures
        spec_exec::<E, C>(t, rel, full).wf(),
    decreases rel.len(),
{
    if rel.len() == 0 {
        lemma_invoke_exec_wf::<E, C>(t, full);
    } else {
        let ki = t.key_index(rel[0]);
        lemma_key_index_bounds(t, rel[0]);
        if ki >= 0 {
            assert(t.commands[ki].1.wf());
            lemma_exec_preserves_wf::<E, C>(t.commands[ki].1, rel.drop_first(), full);
            assert(t.commands[ki].0 == rel[0]);
            lemma_wf_update(t, ki, spec_exec::<E, C>(t.commands[ki].1, rel.drop_first(), full));
        } else {
            lemma_invoke_exec_wf::<E, C>(t, full);
        }
    }
}

proof fn lemma_invoke_exec_wf<E: ExecHandler, C: CompleteHandler>(
    t: TrieModel<E::Model, C::Model>,
    full: Seq<Seq<char>>,
)
    requires
        t.wf(),
    ensures
        spec_invoke_exec::<E, C>(t, full).wf(),
{
    match t.handler {
        Some(cm) => {
            lemma_wf_handler(
                t,
                Some(CommandModel { exec_cb: E::on_exec(cm.exec_cb, full), ..cm }),
            );
        }
        None => {}
    }
}

/// LAW (invariant preservation): completion keeps the trie well-formed.
pub proof fn lemma_complete_preserves_wf<E: ExecHandler, C: CompleteHandler>(
    t: TrieModel<E::Model, C::Model>,
    rel: Seq<Seq<char>>,
)
    requires
        t.wf(),
    ensures
        spec_complete::<E, C>(t, rel).0.wf(),
    decreases rel.len(),
{
    if rel.len() == 0 {
        if has_dyn(t) {
            lemma_invoke_complete_wf::<E, C>(t, sentinel_args());
        }
    } else {
        let ki = t.key_index(rel[0]);
        lemma_key_index_bounds(t, rel[0]);
        if ki >= 0 {
            assert(t.commands[ki].1.wf());
            lemma_complete_preserves_wf::<E, C>(t.commands[ki].1, rel.drop_first());
            assert(t.commands[ki].0 == rel[0]);
            lemma_wf_update(t, ki, spec_complete::<E, C>(t.commands[ki].1, rel.drop_first()).0);
        } else {
            lemma_invoke_complete_wf::<E, C>(t, rel);
        }
    }
}

proof fn lemma_invoke_complete_wf<E: ExecHandler, C: CompleteHandler>(
    t: TrieModel<E::Model, C::Model>,
    args: Seq<Seq<char>>,
)
    requires
        t.wf(),
    ensures
        spec_invoke_complete::<E, C>(t, args).0.wf(),
{
    match t.handler {
        Some(cm) => match cm.complete_cb {
            Some(cc) => {
                lemma_wf_handler(
                    t,
                    Some(CommandModel { complete_cb: Some(C::on_complete(cc, args)), ..cm }),
                );
            }
            None => {}
        },
        None => {}
    }
}

/// LAW: registering a command path attaches exactly the given command at the
/// end of exactly that path.
pub proof fn lemma_register_handler_at<EM, CM>(
    t: TrieModel<EM, CM>,
    path: Seq<Seq<char>>,
    cmd: CommandModel<EM, CM>,
)
    ensures
        t.spec_register(path, cmd).handler_at(path) == Some(cmd),
    decreases path.len(),
{
    if path.len() > 0 {
        let ki = t.key_index(path[0]);
        let t2 = t.spec_register(path, cmd);
        lemma_key_index_bounds(t, path[0]);
        if ki >= 0 {
            assert(0 <= ki < t.commands.len());
            lemma_key_index_from_same_keys(t2.commands, t.commands, path[0], 0);
            lemma_register_handler_at(t.commands[ki].1, path.drop_first(), cmd);
        } else {
            let p = (path[0], leaf_chain(path.drop_first(), cmd));
            lemma_key_index_push(t.commands, p, path[0], 0);
            assert(t2.key_index(path[0]) == t.commands.len());
            lemma_leaf_chain_handler_at(path.drop_first(), cmd);
        }
    }
}

/// A sequence is determined by its first element and the rest.
proof fn lemma_head_tail_eq(q: Seq<Seq<char>>, p: Seq<Seq<char>>)
    requires
        q.len() > 0,
        p.len() > 0,
        q[0] == p[0],
        q.drop_first() == p.drop_first(),
    ensures
        q == p,
{
    assert(q.drop_first().len() == q.len() - 1);
    assert(p.drop_first().len() == p.len() - 1);
    assert forall|i: int| 0 <= i < q.len() implies q[i] == p[i] by {
        if i > 0 {
            assert(q[i] == q.drop_first()[i - 1]);
            assert(p[i] == p.drop_first()[i - 1]);
        }
    }
    assert(q =~= p);
}

/// Key search that found nothing still finds nothing after a key of another
/// name is appended.
proof fn lemma_key_index_push_other<EM, CM>(
    s: Seq<(Seq<char>, TrieModel<EM, CM>)>,
    p: (Seq<char>, TrieModel<EM, CM>),
    tok: Seq<char>,
    i: int,
)
    requires
        0 <= i <= s.len(),
        key_index_from(s, tok, i) == -1,
        p.0 != tok,
    ensures
        key_index_from(s.push(p), tok, i) == -1,
    decreases s.len() - i,
{
    if i < s.len() {
        lemma_key_index_push_other(s, p, tok, i + 1);
    } else {
        assert(s.push(p)[i] == p);
        assert(key_index_from(s.push(p), tok, i + 1) == -1);
    }
}

/// Key search finds the same position after some entry's subtrie is replaced
/// under its own key.
proof fn lemma_key_index_update<EM, CM>(
    s: Seq<(Seq<char>, TrieModel<EM, CM>)>,
    ki: int,
    sub: TrieModel<EM, CM>,
    tok: Seq<char>,
)
    requires
        0 <= ki < s.len(),
    ensures
        key_index_from(s.update(ki, (s[ki].0, sub)), tok, 0) == key_index_from(s, tok, 0),
{
    lemma_key_index_from_same_keys(s.update(ki, (s[ki].0, sub)), s, tok, 0);
}

/// A fresh chain holds no handler anywhere but at the end of its own path.
proof fn lemma_leaf_chain_handler_at_other<EM, CM>(
    p: Seq<Seq<char>>,
    q: Seq<Seq<char>>,
    cmd: CommandModel<EM, CM>,
)
    requires
        q != p,
    ensures
        leaf_chain(p, cmd).handler_at(q) is None,
    decreases q.len(),
{
    let t = leaf_chain(p, cmd);
    if p.len() == 0 {
        // a lone leaf: any further token finds no child
        assert(q.len() > 0) by {
            if q.len() == 0 {
                assert(q =~= p);
            }
        }
        assert(t.commands.len() == 0);
        assert(t.key_index(q[0]) == -1);
    } else if q.len() > 0 {
        assert(t.commands == seq![(p[0], leaf_chain(p.drop_first(), cmd))]);
        if q[0] == p[0] {
            assert(t.key_index(q[0]) == 0);
            assert(q.drop_first() != p.drop_first()) by {
                if q.drop_first() == p.drop_first() {
                    lemma_head_tail_eq(q, p);
                }
            }
            lemma_leaf_chain_handler_at_other(p.drop_first(), q.drop_first(), cmd);
        } else {
            assert(key_index_from(t.commands, q[0], 1) == -1);
            assert(t.key_index(q[0]) == -1);
        }
    }
}

/// LAW (non-interference): registering one command path leaves the handler at
/// the end of every other path as it was. In particular a path that is a
/// prefix of a longer registered path, or an extension of one, gains its
/// handler without disturbing the other: both coexist.
pub proof fn lemma_register_preserves_others<EM, CM>(
    t: TrieModel<EM, CM>,
    path: Seq<Seq<char>>,
    cmd: CommandModel<EM, CM>,
    q: Seq<Seq<char>>,
)
    requires
        q != path,
    ensures
        t.spec_register(path, cmd).handler_at(q) == t.handler_at(q),
    decreases q.len(),
{
    let t2 = t.spec_register(path, cmd);
    if path.len() == 0 {
        // only the root handler changed; any other path starts with a token
        assert(q.len() > 0) by {
            if q.len() == 0 {
                assert(q =~= path);
            }
        }
        assert(t2.commands == t.commands);
        lemma_handler_at_same_structure(t2, t, q);
    } else if q.len() == 0 {
        // the root handler is untouched by a descent
    } else {
        let ki = t.key_index(path[0]);
        lemma_key_index_bounds(t, path[0]);
        if ki >= 0 {
            let sub = t.commands[ki].1.spec_register(path.drop_first(), cmd);
            lemma_key_index_update(t.commands, ki, sub, q[0]);
            let qi = t.key_index(q[0]);
            lemma_key_index_bounds(t, q[0]);
            if qi >= 0 {
                if qi == ki {
                    assert(q[0] == path[0]);
                    assert(q.drop_first() != path.drop_first()) by {
                        if q.drop_first() == path.drop_first() {
                            lemma_head_tail_eq(q, path);
                        }
                    }
                    lemma_register_preserves_others(
                        t.commands[ki].1,
                        path.drop_first(),
                        cmd,
                        q.drop_first(),
                    );
                } else {
                    assert(t2.commands[qi] == t.commands[qi]);
                }
            }
        } else {
            let sub = leaf_chain(path.drop_first(), cmd);
            let qi = t.key_index(q[0]);
            lemma_key_index_bounds(t, q[0]);
            if qi >= 0 {
                // the appended child sits behind every old one
                lemma_key_index_from(t.commands.push((path[0], sub)), q[0], 0);
                lemma_key_index_from_prefix(t.commands, (path[0], sub), q[0], 0);
                assert(t2.commands[qi] == t.commands[qi]);
            } else {
                if q[0] == path[0] {
                    lemma_key_index_push(t.commands, (path[0], sub), q[0], 0);
                    assert(t2.key_index(q[0]) == t.commands.len());
                    assert(q.drop_first() != path.drop_first()) by {
                        if q.drop_first() == path.drop_first() {
                            lemma_head_tail_eq(q, path);
                        }
                    }
                    lemma_leaf_chain_handler_at_other(path.drop_first(), q.drop_first(), cmd);
                } else {
                    lemma_key_index_push_other(t.commands, (path[0], sub), q[0], 0);
                }
            }
        }
    }
}

/// Key search that found a position keeps finding it after an entry is
/// appended behind it.
proof fn lemma_key_index_from_prefix<EM, CM>(
    s: Seq<(Seq<char>, TrieModel<EM, CM>)>,
    p: (Seq<char>, TrieModel<EM, CM>),
    tok: Seq<char>,
    i: int,
)
    requires
        0 <= i <= s.len(),
        key_index_from(s, tok, i) != -1,
    ensures
        key_index_from(s.push(p), tok, i) == key_index_from(s, tok, i),
    decreases s.len() - i,
{
    if i < s.len() && s[i].0 != tok {
        lemma_key_index_from_prefix(s, p, tok, i + 1);
    }
}

/// Two tries with the same children resolve every non-empty path to the same
/// handler.
proof fn lemma_handler_at_same_structure<EM, CM>(
    t1: TrieModel<EM, CM>,
    t2: TrieModel<EM, CM>,
    q: Seq<Seq<char>>,
)
    requires
        t1.commands == t2.commands,
        q.len() > 0,
    ensures
        t1.handler_at(q) == t2.handler_at(q),
{
}

/// After replacing the handler at the end of an existing path, that handler
/// is what sits there.
pub proof fn lemma_set_handler_at_get<EM, CM>(
    t: TrieModel<EM, CM>,
    path: Seq<Seq<char>>,
    h: Option<CommandModel<EM, CM>>,
)
    requires
        t.node_at(path) is Some,
    ensures
        t.set_handler_at(path, h).handler_at(path) == h,
    decreases path.len(),
{
    if path.len() > 0 {
        let ki = t.key_index(path[0]);
        lemma_key_index_bounds(t, path[0]);
        assert(0 <= ki < t.commands.len());
        let t2 = t.set_handler_at(path, h);
        lemma_key_index_from_same_keys(t2.commands, t.commands, path[0], 0);
        lemma_set_handler_at_get(t.commands[ki].1, path.drop_first(), h);
    }
}

/// Replacing the handler at the end of one path leaves the handler at the
/// end of every other path as it was.
pub proof fn lemma_set_handler_at_other<EM, CM>(
    t: TrieModel<EM, CM>,
    path: Seq<Seq<char>>,
    h: Option<CommandModel<EM, CM>>,
    q: Seq<Seq<char>>,
)
    requires
        q != path,
    ensures
        t.set_handler_at(path, h).handler_at(q) == t.handler_at(q),
    decreases q.len(),
{
    let t2 = t.set_handler_at(path, h);
    if path.len() == 0 {
        assert(q.len() > 0) by {
            if q.len() == 0 {
                assert(q =~= path);
            }
        }
        assert(t2.commands == t.commands);
        lemma_handler_at_same_structure(t2, t, q);
    } else if q.len() > 0 {
        let ki = t.key_index(path[0]);
        lemma_key_index_bounds(t, path[0]);
        if ki >= 0 {
            let sub = t.commands[ki].1.set_handler_at(path.drop_first(), h);
            lemma_key_index_update(t.commands, ki, sub, q[0]);
            let qi = t.key_index(q[0]);
            lemma_key_index_bounds(t, q[0]);
            if qi >= 0 {
                if qi == ki {
                    assert(q[0] == path[0]);
                    assert(q.drop_first() != path.drop_first()) by {
                        if q.drop_first() == path.drop_first() {
                            lemma_head_tail_eq(q, path);
                        }
                    }
                    lemma_set_handler_at_other(
                        t.commands[ki].1,
                        path.drop_first(),
                        h,
                        q.drop_first(),
                    );
                } else {
                    assert(t2.commands[qi] == t.commands[qi]);
                }
            }
        }
    }
}

/// Replacing the handler at one path twice keeps only the second handler.
pub proof fn lemma_set_handler_at_twice<EM, CM>(
    t: TrieModel<EM, CM>,
    path: Seq<Seq<char>>,
    h1: Option<CommandModel<EM, CM>>,
    h2: Option<CommandModel<EM, CM>>,
)
    ensures
        t.set_handler_at(path, h1).set_handler_at(path, h2) == t.set_handler_at(path, h2),
    decreases path.len(),
{
    if path.len() == 0 {
        assert(t.set_handler_at(path, h1).set_handler_at(path, h2) =~= t.set_handler_at(path, h2));
    } else {
        let ki = t.key_index(path[0]);
        lemma_key_index_bounds(t, path[0]);
        if ki >= 0 {
            assert(0 <= ki < t.commands.len());
            let t1 = t.set_handler_at(path, h1);
            lemma_key_index_from_same_keys(t1.commands, t.commands, path[0], 0);
            lemma_set_handler_at_twice(t.commands[ki].1, path.drop_first(), h1, h2);
            assert(t1.set_handler_at(path, h2) =~= t.set_handler_at(path, h2)) by {
                assert(t1.set_handler_at(path, h2).commands =~= t.set_handler_at(
                    path,
                    h2,
                ).commands);
            }
        }
    }
}

/// Executing a line whose tokens end at a node with a handler invokes that
/// handler's execution callback once, with the given tokens as arguments,
/// and changes nothing else in the trie.
pub proof fn lemma_spec_exec_at<E: ExecHandler, C: CompleteHandler>(
    t: TrieModel<E::Model, C::Model>,
    rel: Seq<Seq<char>>,
    full: Seq<Seq<char>>,
    cm: CommandModel<E::Model, C::Model>,
)
    requires
        t.handler_at(rel) == Some(cm),
    ensures
        spec_exec::<E, C>(t, rel, full) == t.set_handler_at(
            rel,
            Some(CommandModel { exec_cb: E::on_exec(cm.exec_cb, full), ..cm }),
        ),
    decreases rel.len(),
{
    let goal = t.set_handler_at(rel, Some(CommandModel { exec_cb: E::on_exec(cm.exec_cb, full), ..cm }));
    if rel.len() == 0 {
        assert(spec_exec::<E, C>(t, rel, full) =~= goal);
    } else {
        let ki = t.key_index(rel[0]);
        lemma_key_index_bounds(t, rel[0]);
        assert(0 <= ki < t.commands.len());
        lemma_spec_exec_at::<E, C>(t.commands[ki].1, rel.drop_first(), full, cm);
        assert(spec_exec::<E, C>(t, rel, full) =~= goal) by {
            assert(spec_exec::<E, C>(t, rel, full).commands =~= goal.commands);
        }
    }
}

/// LAW: for any non-empty command path of proper tokens whose node holds a
/// handler, executing the exact space-joined line of the path invokes that
/// handler's execution callback exactly once, with the full token sequence
/// equal to the path, and changes nothing else in the trie.
pub proof fn lemma_exec_joined_invokes<E: ExecHandler, C: CompleteHandler>(
    t: TrieModel<E::Model, C::Model>,
    path: Seq<Seq<char>>,
    cm: CommandModel<E::Model, C::Model>,
)
    requires
        path.len() > 0,
        valid_tokens(path),
        t.handler_at(path) == Some(cm),
    ensures
        tokens_of(joined(path)) == path,
        spec_exec::<E, C>(t, tokens_of(joined(path)), tokens_of(joined(path))) == t.set_handler_at(
            path,
            Some(CommandModel { exec_cb: E::on_exec(cm.exec_cb, path), ..cm }),
        ),
        forall|q: Seq<Seq<char>>|
            q != path ==> spec_exec::<E, C>(
                t,
                tokens_of(joined(path)),
                tokens_of(joined(path)),
            ).handler_at(q) == #[trigger] t.handler_at(q),
{
    lemma_tokens_of_joined(path);
    lemma_spec_exec_at::<E, C>(t, path, path, cm);
    let h2 = Some(CommandModel { exec_cb: E::on_exec(cm.exec_cb, path), ..cm });
    assert forall|q: Seq<Seq<char>>| q != path implies spec_exec::<E, C>(
        t,
        tokens_of(joined(path)),
        tokens_of(joined(path)),
    ).handler_at(q) == #[trigger] t.handler_at(q) by {
        lemma_set_handler_at_other(t, path, h2, q);
    }
}

/// LAW: executing the same matching line twice invokes the handler twice:
/// the second execution finds the handler state left by the first and applies
/// the callback to it once more. Nothing is deduplicated or memoized.
pub proof fn lemma_exec_joined_twice<E: ExecHandler, C: CompleteHandler>(
    t: TrieModel<E::Model, C::Model>,
    path: Seq<Seq<char>>,
    cm: CommandModel<E::Model, C::Model>,
)
    requires
        path.len() > 0,
        valid_tokens(path),
        t.handler_at(path) == Some(cm),
    ensures
        ({
            let l = tokens_of(joined(path));
            let cm1 = CommandModel { exec_cb: E::on_exec(cm.exec_cb, path), ..cm };
            let cm2 = CommandModel { exec_cb: E::on_exec(E::on_exec(cm.exec_cb, path), path), ..cm };
            spec_exec::<E, C>(spec_exec::<E, C>(t, l, l), l, l) == t.set_handler_at(
                path,
                Some(cm2),
            )
        }),
{
    lemma_tokens_of_joined(path);
    let cm1 = CommandModel { exec_cb: E::on_exec(cm.exec_cb, path), ..cm };
    let cm2 = CommandModel { exec_cb: E::on_exec(E::on_exec(cm.exec_cb, path), path), ..cm };
    lemma_spec_exec_at::<E, C>(t, path, path, cm);
    lemma_set_handler_at_get(t, path, Some(cm1));
    let t1 = t.set_handler_at(path, Some(cm1));
    lemma_spec_exec_at::<E, C>(t1, path, path, cm1);
    assert(CommandModel { exec_cb: E::on_exec(cm1.exec_cb, path), ..cm1 } == cm2);
    lemma_set_handler_at_twice(t, path, Some(cm1), Some(cm2));
}

} // verus!
