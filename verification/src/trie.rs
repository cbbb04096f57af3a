use super::handler::{CompleteHandler, ExecHandler};
use super::laws::{lemma_complete_preserves_wf, lemma_exec_preserves_wf, lemma_register_preserves_wf};
use super::tokens::{copy_tokens_from, token_views, tokenize, tokens_of};
use vstd::prelude::*;

verus! {

/// Abstract state of a registered command: its path, the state of its
/// execution callback, and the state of its optional dynamic-completion
/// callback.
#[verifier::ext_equal]
pub struct CommandModel<EM, CM> {
    pub command: Seq<Seq<char>>,
    pub exec_cb: EM,
    pub complete_cb: Option<CM>,
}

/// Abstract state of a trie node: the children in insertion order, keyed by
/// token, and the handler attached to the node, if any.
#[verifier::ext_equal]
pub struct TrieModel<EM, CM> {
    pub commands: Seq<(Seq<char>, TrieModel<EM, CM>)>,
    pub handler: Option<CommandModel<EM, CM>>,
}

/// The first position at or after `i` whose key equals `tok`, or -1.
pub open spec fn key_index_from<EM, CM>(
    s: Seq<(Seq<char>, TrieModel<EM, CM>)>,
    tok: Seq<char>,
    i: int,
) -> int
    decreases s.len() - i,
{
    if i < 0 || i >= s.len() {
        -1
    } else if s[i].0 == tok {
        i
    } else {
        key_index_from(s, tok, i + 1)
    }
}

pub proof fn lemma_key_index_from<EM, CM>(
    s: Seq<(Seq<char>, TrieModel<EM, CM>)>,
    tok: Seq<char>,
    i: int,
)
    requires
        0 <= i <= s.len(),
    ensures
        ({
            let r = key_index_from(s, tok, i);
            &&& (r == -1 ==> forall|j: int| i <= j < s.len() ==> (#[trigger] s[j]).0 != tok)
            &&& (r != -1 ==> i <= r < s.len() && s[r].0 == tok && (forall|j: int|
                i <= j < r ==> (#[trigger] s[j]).0 != tok))
        }),
    decreases s.len() - i,
{
    if i < s.len() && s[i].0 != tok {
        lemma_key_index_from(s, tok, i + 1);
    }
}

/// A linear chain of fresh nodes for the given path, with the command at its
/// end.
pub open spec fn leaf_chain<EM, CM>(path: Seq<Seq<char>>, cmd: CommandModel<EM, CM>) -> TrieModel<
    EM,
    CM,
>
    decreases path.len(),
{
    if path.len() == 0 {
        TrieModel { commands: Seq::empty(), handler: Some(cmd) }
    } else {
        TrieModel { commands: seq![(path[0], leaf_chain(path.drop_first(), cmd))], handler: None }
    }
}

impl<EM, CM> TrieModel<EM, CM> {
    /// The position of the child keyed by `tok`, or -1.
    pub open spec fn key_index(self, tok: Seq<char>) -> int {
        key_index_from(self.commands, tok, 0)
    }

    /// The child reached by one token, if any.
    pub open spec fn get_child(self, tok: Seq<char>) -> Option<TrieModel<EM, CM>> {
        if self.key_index(tok) >= 0 {
            Some(self.commands[self.key_index(tok)].1)
        } else {
            None
        }
    }

    /// The node reached by a whole token path, if every step has a child.
    pub open spec fn node_at(self, path: Seq<Seq<char>>) -> Option<TrieModel<EM, CM>>
        decreases path.len(),
    {
        if path.len() == 0 {
            Some(self)
        } else {
            match self.get_child(path[0]) {
                Some(c) => c.node_at(path.drop_first()),
                None => None,
            }
        }
    }

    /// The handler attached at the end of a token path, if the path exists
    /// and its final node holds one.
    pub open spec fn handler_at(self, path: Seq<Seq<char>>) -> Option<CommandModel<EM, CM>> {
        match self.node_at(path) {
            Some(n) => n.handler,
            None => None,
        }
    }

    /// The child keys of this node, in insertion order.
    pub open spec fn child_keys(self) -> Seq<Seq<char>> {
        self.commands.map_values(|p: (Seq<char>, TrieModel<EM, CM>)| p.0)
    }

    /// Well-formed: every node's child keys are pairwise distinct.
    pub open spec fn wf(self) -> bool
        decreases self,
    {
        &&& (forall|i: int, j: int|
            0 <= i < j < self.commands.len() ==> self.commands[i].0 != self.commands[j].0)
        &&& (forall|i: int|
            0 <= i < self.commands.len() ==> (#[trigger] self.commands[i]).1.wf())
    }

    /// This trie with the handler at the end of `path` replaced, provided the
    /// path exists; otherwise unchanged.
    pub open spec fn set_handler_at(
        self,
        path: Seq<Seq<char>>,
        h: Option<CommandModel<EM, CM>>,
    ) -> Self
        decreases path.len(),
    {
        if path.len() == 0 {
            TrieModel { handler: h, ..self }
        } else {
            let ki = self.key_index(path[0]);
            if ki >= 0 {
                TrieModel {
                    commands: self.commands.update(
                        ki,
                        (path[0], self.commands[ki].1.set_handler_at(path.drop_first(), h)),
                    ),
                    ..self
                }
            } else {
                self
            }
        }
    }

    /// Registration: descend along `path`, reusing children where they exist
    /// and growing a fresh chain where they do not, and attach `cmd` to the
    /// node reached by the whole path, replacing any handler already there.
    pub open spec fn spec_register(self, path: Seq<Seq<char>>, cmd: CommandModel<EM, CM>) -> Self
        decreases path.len(),
    {
        if path.len() == 0 {
            TrieModel { handler: Some(cmd), ..self }
        } else {
            let ki = self.key_index(path[0]);
            if ki >= 0 {
                TrieModel {
                    commands: self.commands.update(
                        ki,
                        (path[0], self.commands[ki].1.spec_register(path.drop_first(), cmd)),
                    ),
                    ..self
                }
            } else {
                TrieModel {
                    commands: self.commands.push((path[0], leaf_chain(path.drop_first(), cmd))),
                    ..self
                }
            }
        }
    }
}

/// One invocation of the execution callback of the handler at this node, with
/// the full token sequence of the input line; without a handler, no effect.
pub open spec fn spec_invoke_exec<E: ExecHandler, C: CompleteHandler>(
    t: TrieModel<E::Model, C::Model>,
    full: Seq<Seq<char>>,
) -> TrieModel<E::Model, C::Model> {
    match t.handler {
        Some(cm) => TrieModel {
            handler: Some(CommandModel { exec_cb: E::on_exec(cm.exec_cb, full), ..cm }),
            ..t
        },
        None => t,
    }
}

/// Execution: descend while the next token has a child, and invoke the
/// handler of the node where descent stops — with the entire original token
/// sequence `full`, not the remaining suffix.
pub open spec fn spec_exec<E: ExecHandler, C: CompleteHandler>(
    t: TrieModel<E::Model, C::Model>,
    rel: Seq<Seq<char>>,
    full: Seq<Seq<char>>,
) -> TrieModel<E::Model, C::Model>
    decreases rel.len(),
{
    if rel.len() == 0 {
        spec_invoke_exec::<E, C>(t, full)
    } else {
        let ki = t.key_index(rel[0]);
        if ki >= 0 {
            TrieModel {
                commands: t.commands.update(
                    ki,
                    (rel[0], spec_exec::<E, C>(t.commands[ki].1, rel.drop_first(), full)),
                ),
                ..t
            }
        } else {
            spec_invoke_exec::<E, C>(t, full)
        }
    }
}

/// The single empty-string sentinel token handed to a dynamic-completion
/// callback when the input is exhausted at its node, signaling that nothing
/// further was typed.
pub open spec fn sentinel_args() -> Seq<Seq<char>> {
    seq![Seq::empty()]
}

/// The keys that the unmatched token is a literal prefix of, in order.
pub open spec fn prefix_filter(keys: Seq<Seq<char>>, pre: Seq<char>) -> Seq<Seq<char>> {
    keys.filter(|k: Seq<char>| pre.is_prefix_of(k))
}

/// Whether this node holds a handler with a dynamic-completion callback.
pub open spec fn has_dyn<EM, CM>(t: TrieModel<EM, CM>) -> bool {
    match t.handler {
        Some(cm) => cm.complete_cb is Some,
        None => false,
    }
}

/// One invocation of the dynamic-completion callback of the handler at this
/// node: the trie afterwards and the candidates returned. Without such a
/// callback, no effect and no candidates.
pub open spec fn spec_invoke_complete<E: ExecHandler, C: CompleteHandler>(
    t: TrieModel<E::Model, C::Model>,
    args: Seq<Seq<char>>,
) -> (TrieModel<E::Model, C::Model>, Seq<Seq<char>>) {
    match t.handler {
        Some(cm) => match cm.complete_cb {
            Some(cc) => (
                TrieModel {
                    handler: Some(
                        CommandModel { complete_cb: Some(C::on_complete(cc, args)), ..cm },
                    ),
                    ..t
                },
                C::suggestions(cc, args),
            ),
            None => (t, Seq::empty()),
        },
        None => (t, Seq::empty()),
    }
}

/// Completion: descend while the next token has a child. When the input is
/// exhausted at a node, a dynamic-completion callback there is asked with the
/// sentinel and its candidates alone are returned; otherwise all child keys
/// are. When a token has no child, the candidates are what the node's
/// dynamic-completion callback returns for the remaining tokens, followed by
/// the child keys the unmatched token is a prefix of.
pub open spec fn spec_complete<E: ExecHandler, C: CompleteHandler>(
    t: TrieModel<E::Model, C::Model>,
    rel: Seq<Seq<char>>,
) -> (TrieModel<E::Model, C::Model>, Seq<Seq<char>>)
    decreases rel.len(),
{
    if rel.len() == 0 {
        if has_dyn(t) {
            spec_invoke_complete::<E, C>(t, sentinel_args())
        } else {
            (t, t.child_keys())
        }
    } else {
        let ki = t.key_index(rel[0]);
        if ki >= 0 {
            let sub = spec_complete::<E, C>(t.commands[ki].1, rel.drop_first());
            (TrieModel { commands: t.commands.update(ki, (rel[0], sub.0)), ..t }, sub.1)
        } else {
            let inv = spec_invoke_complete::<E, C>(t, rel);
            (inv.0, inv.1 + prefix_filter(t.child_keys(), rel[0]))
        }
    }
}

/// Whether `pre` is a literal prefix of `s`.
fn str_starts_with(s: &String, pre: &String) -> (r: bool)
    ensures
        r == pre@.is_prefix_of(s@),
{
    let n = pre.as_str().unicode_len();
    let sn = s.as_str().unicode_len();
    if n > sn {
        return false;
    }
    let mut k: usize = 0;
    while k < n
        invariant
            k <= n,
            n == pre@.len(),
            sn == s@.len(),
            n <= sn,
            forall|l: int| 0 <= l < k ==> pre@[l] == s@[l],
        decreases n - k,
    {
        if pre.as_str().get_char(k) != s.as_str().get_char(k) {
            proof {
                assert(!pre@.is_prefix_of(s@)) by {
                    if pre@.is_prefix_of(s@) {
                        assert(pre@[k as int] == s@.subrange(0, n as int)[k as int]);
                    }
                }
            }
            return false;
        }
        k = k + 1;
    }
    proof {
        assert(pre@ =~= s@.subrange(0, n as int));
    }
    true
}

/// The failure of a registration attempt.
#[derive(Debug, PartialEq, Eq, Structural)]
pub enum RegisterError {
    /// The given command path held no token.
    EmptyPath,
}

/// A registered command: the path it was registered under, its execution
/// callback, and its optional dynamic-completion callback.
pub struct Command<E, C> {
    pub command: Vec<String>,
    pub exec_cb: E,
    pub complete_cb: Option<C>,
}

impl<E: ExecHandler, C: CompleteHandler> Command<E, C> {
    pub open spec fn model(self) -> CommandModel<E::Model, C::Model> {
        CommandModel {
            command: token_views(self.command@),
            exec_cb: self.exec_cb.model(),
            complete_cb: match self.complete_cb {
                Some(c) => Some(c.model()),
                None => None,
            },
        }
    }

    pub fn new(cmd: Vec<String>, exec_handler: E, complete_handler: Option<C>) -> (r: Command<
        E,
        C,
    >)
        ensures
            r.model() == (CommandModel {
                command: token_views(cmd@),
                exec_cb: exec_handler.model(),
                complete_cb: match complete_handler {
                    Some(c) => Some(c.model()),
                    None => None::<C::Model>,
                },
            }),
    {
        Command { command: cmd, exec_cb: exec_handler, complete_cb: complete_handler }
    }
}

/// A vertex of the command trie, holding the registered commands below it.
/// The root represents the empty prefix.
pub struct Cli<E, C> {
    commands: Vec<(String, Cli<E, C>)>,
    handler: Option<Command<E, C>>,
}

/// The abstract states of a run of children, from position `i` on.
pub open spec fn entries_model<E: ExecHandler, C: CompleteHandler>(
    s: Seq<(String, Cli<E, C>)>,
    i: int,
) -> Seq<(Seq<char>, TrieModel<E::Model, C::Model>)>
    decreases s, s.len() - i,
{
    if i < 0 || i >= s.len() {
        Seq::empty()
    } else {
        seq![(s[i].0@, s[i].1.model())] + entries_model(s, i + 1)
    }
}

pub proof fn lemma_entries_model<E: ExecHandler, C: CompleteHandler>(
    s: Seq<(String, Cli<E, C>)>,
    i: int,
)
    requires
        0 <= i <= s.len(),
    ensures
        entries_model(s, i).len() == s.len() - i,
        forall|k: int|
            0 <= k < s.len() - i ==> #[trigger] entries_model(s, i)[k] == (
                s[i + k].0@,
                s[i + k].1.model(),
            ),
    decreases s.len() - i,
{
    if i < s.len() {
        lemma_entries_model(s, i + 1);
    }
}

impl<E: ExecHandler, C: CompleteHandler> Cli<E, C> {
    /// The abstract state of this node and everything below it.
    pub closed spec fn model(self) -> TrieModel<E::Model, C::Model>
        decreases self, 0int,
    {
        TrieModel {
            commands: entries_model(self.commands@, 0),
            handler: match self.handler {
                Some(c) => Some(c.model()),
                None => None,
            },
        }
    }

    /// Constructs an empty trie: no children, no handler.
    pub fn new() -> (r: Cli<E, C>)
        ensures
            r.model() == (TrieModel::<E::Model, C::Model> {
                commands: Seq::empty(),
                handler: None,
            }),
            r.model().wf(),
    {
        let r = Cli { commands: Vec::new(), handler: None };
        proof {
            lemma_entries_model(r.commands@, 0);
            assert(r.model().commands =~= Seq::<(Seq<char>, TrieModel<E::Model, C::Model>)>::empty());
            assert(r.model() =~= TrieModel::<E::Model, C::Model> {
                commands: Seq::empty(),
                handler: None,
            });
        }
        r
    }

    /// The position of the child keyed by `tok`, if one exists.
    fn child_index(&self, tok: &String) -> (r: Option<usize>)
        ensures
            match r {
                Some(j) => j < self.commands@.len() && self.model().key_index(tok@) == j,
                None => self.model().key_index(tok@) == -1,
            },
    {
        let ghost m = self.model();
        proof {
            lemma_entries_model(self.commands@, 0);
        }
        let mut j: usize = 0;
        while j < self.commands.len()
            invariant
                j <= self.commands@.len(),
                m == self.model(),
                m.commands.len() == self.commands@.len(),
                forall|k: int|
                    0 <= k < self.commands@.len() ==> #[trigger] m.commands[k] == (
                        self.commands@[k].0@,
                        self.commands@[k].1.model(),
                    ),
                forall|l: int| 0 <= l < j ==> (#[trigger] m.commands[l]).0 != tok@,
            decreases self.commands@.len() - j,
        {
            if self.commands[j].0 == *tok {
                proof {
                    assert(self.commands@[j as int].0@ == tok@);
                    assert(m.commands[j as int].0 == tok@);
                    lemma_key_index_from(m.commands, tok@, 0);
                    let r = key_index_from(m.commands, tok@, 0);
                    assert(r != -1) by {
                        if r == -1 {
                            assert(m.commands[j as int].0 != tok@);
                        }
                    }
                    assert(r == j) by {
                        if r < j {
                            assert((#[trigger] m.commands[r]).0 != tok@);
                        }
                        if r > j {
                            assert(m.commands[j as int].0 != tok@);
                        }
                    }
                }
                return Some(j);
            }
            j = j + 1;
        }
        proof {
            lemma_key_index_from(m.commands, tok@, 0);
        }
        None
    }

    /// A linear chain of fresh nodes for `path[i..]`, with `cmd` attached at
    /// its end.
    fn make_chain(path: &Vec<String>, i: usize, cmd: Command<E, C>) -> (r: Cli<E, C>)
        requires
            i <= path@.len(),
        ensures
            r.model() == leaf_chain(token_views(path@).skip(i as int), cmd.model()),
        decreases path@.len() - i,
    {
        let ghost rel = token_views(path@).skip(i as int);
        if i < path.len() {
            let key = path[i].clone();
            let sub = Self::make_chain(path, i + 1, cmd);
            let mut v: Vec<(String, Cli<E, C>)> = Vec::new();
            v.push((key, sub));
            let r = Cli { commands: v, handler: None };
            proof {
                lemma_entries_model(r.commands@, 0);
                assert(rel.drop_first() =~= token_views(path@).skip(i as int + 1));
                assert(rel[0] == path@[i as int]@);
                assert(r.model().commands =~= seq![
                    (rel[0], leaf_chain(rel.drop_first(), cmd.model())),
                ]);
                assert(r.model() =~= leaf_chain(rel, cmd.model()));
            }
            r
        } else {
            let r = Cli { commands: Vec::new(), handler: Some(cmd) };
            proof {
                lemma_entries_model(r.commands@, 0);
                assert(rel =~= Seq::<Seq<char>>::empty());
                assert(r.model().commands =~= Seq::<
                    (Seq<char>, TrieModel<E::Model, C::Model>),
                >::empty());
                assert(r.model() =~= leaf_chain(rel, cmd.model()));
            }
            r
        }
    }

    /// Descends along `path[i..]`, creating missing nodes, and attaches `cmd`
    /// to the node reached by the last token.
    fn _register(&mut self, path: &Vec<String>, i: usize, cmd: Command<E, C>)
        requires
            i < path@.len(),
        ensures
            final(self).model() == old(self).model().spec_register(
                token_views(path@).skip(i as int),
                cmd.model(),
            ),
        decreases path@.len() - i,
    {
        let ghost m_old = self.model();
        let ghost rel = token_views(path@).skip(i as int);
        let n = path.len();
        proof {
            lemma_entries_model(self.commands@, 0);
            assert(rel[0] == path@[i as int]@);
            assert(rel.drop_first() =~= token_views(path@).skip(i as int + 1));
        }
        let j_opt = self.child_index(&path[i]);
        match j_opt {
            Some(j) => {
                proof {
                    lemma_key_index_from(m_old.commands, path@[i as int]@, 0);
                }
                let ghost cmds_old = self.commands@;
                let mut pair = self.commands.remove(j);
                let ghost child_old = pair.1;
                proof {
                    assert(pair == cmds_old[j as int]);
                    assert(pair.0 == cmds_old[j as int].0);
                }
                if i + 1 < n {
                    pair.1._register(path, i + 1, cmd);
                } else {
                    pair.1.handler = Some(cmd);
                    proof {
                        assert(token_views(path@).skip(i as int + 1) =~= Seq::<Seq<char>>::empty());
                        assert(pair.1.model() =~= child_old.model().spec_register(
                            token_views(path@).skip(i as int + 1),
                            cmd.model(),
                        ));
                    }
                }
                self.commands.insert(j, pair);
                proof {
                    assert(self.commands@ =~= cmds_old.update(j as int, (cmds_old[j as int].0, pair.1)));
                    lemma_entries_model(self.commands@, 0);
                    assert(self.model().commands =~= m_old.commands.update(
                        j as int,
                        (rel[0], child_old.model().spec_register(rel.drop_first(), cmd.model())),
                    ));
                    assert(self.model() =~= m_old.spec_register(rel, cmd.model()));
                }
            }
            None => {
                let key = path[i].clone();
                let sub = Self::make_chain(path, i + 1, cmd);
                self.commands.push((key, sub));
                proof {
                    lemma_entries_model(self.commands@, 0);
                    assert(self.model().commands =~= m_old.commands.push(
                        (rel[0], leaf_chain(rel.drop_first(), cmd.model())),
                    ));
                    assert(self.model() =~= m_old.spec_register(rel, cmd.model()));
                }
            }
        }
    }

    /// Registers a command path with an execution callback. Fails on an empty
    /// path, leaving the trie unchanged; no fallback handler of any kind is
    /// installed on failure.
    pub fn register(&mut self, cmd: Vec<String>, exec: E) -> (r: Result<(), RegisterError>)
        ensures
            cmd@.len() == 0 ==> r is Err && *final(self) == *old(self),
            cmd@.len() > 0 ==> r is Ok && final(self).model() == old(self).model().spec_register(
                token_views(cmd@),
                CommandModel {
                    command: token_views(cmd@),
                    exec_cb: exec.model(),
                    complete_cb: None,
                },
            ),
            old(self).model().wf() ==> final(self).model().wf(),
    {
        if cmd.len() == 0 {
            return Err(RegisterError::EmptyPath);
        }
        let stored = copy_tokens_from(&cmd, 0);
        let c = Command::new(stored, exec, None);
        proof {
            assert(token_views(cmd@).skip(0) =~= token_views(cmd@));
            assert(c.model() =~= CommandModel {
                command: token_views(cmd@),
                exec_cb: exec.model(),
                complete_cb: None::<C::Model>,
            });
        }
        let ghost m_old = self.model();
        self._register(&cmd, 0, c);
        proof {
            if m_old.wf() {
                lemma_register_preserves_wf(m_old, token_views(cmd@), c.model());
            }
        }
        Ok(())
    }

    /// Registers a command path with an execution callback and a
    /// dynamic-completion callback. Fails on an empty path, leaving the trie
    /// unchanged.
    pub fn register_dyn_complete(&mut self, cmd: Vec<String>, exec: E, complete: C) -> (r: Result<
        (),
        RegisterError,
    >)
        ensures
            cmd@.len() == 0 ==> r is Err && *final(self) == *old(self),
            cmd@.len() > 0 ==> r is Ok && final(self).model() == old(self).model().spec_register(
                token_views(cmd@),
                CommandModel {
                    command: token_views(cmd@),
                    exec_cb: exec.model(),
                    complete_cb: Some(complete.model()),
                },
            ),
            old(self).model().wf() ==> final(self).model().wf(),
    {
        if cmd.len() == 0 {
            return Err(RegisterError::EmptyPath);
        }
        let stored = copy_tokens_from(&cmd, 0);
        let c = Command::new(stored, exec, Some(complete));
        proof {
            assert(token_views(cmd@).skip(0) =~= token_views(cmd@));
            assert(c.model() =~= CommandModel {
                command: token_views(cmd@),
                exec_cb: exec.model(),
                complete_cb: Some(complete.model()),
            });
        }
        let ghost m_old = self.model();
        self._register(&cmd, 0, c);
        proof {
            if m_old.wf() {
                lemma_register_preserves_wf(m_old, token_views(cmd@), c.model());
            }
        }
        Ok(())
    }

    /// Invokes this node's execution callback, if a handler is attached, with
    /// the full token sequence of the input line.
    fn invoke_exec(&mut self, argv: &Vec<String>)
        ensures
            final(self).model() == spec_invoke_exec::<E, C>(old(self).model(), token_views(argv@)),
    {
        let h = self.handler.take();
        match h {
            Some(mut cmdv) => {
                cmdv.exec_cb.call_exec(argv);
                self.handler = Some(cmdv);
                proof {
                    assert(self.model() =~= spec_invoke_exec::<E, C>(
                        old(self).model(),
                        token_views(argv@),
                    ));
                }
            }
            None => {
                proof {
                    assert(self.model() =~= spec_invoke_exec::<E, C>(
                        old(self).model(),
                        token_views(argv@),
                    ));
                }
            }
        }
    }

    /// Descends along `argv[i..]` while children match, then invokes the
    /// handler of the reached node with the whole of `argv`.
    fn _exec(&mut self, argv: &Vec<String>, i: usize)
        requires
            i <= argv@.len(),
        ensures
            final(self).model() == spec_exec::<E, C>(
                old(self).model(),
                token_views(argv@).skip(i as int),
                token_views(argv@),
            ),
        decreases argv@.len() - i,
    {
        let ghost m_old = self.model();
        let ghost rel = token_views(argv@).skip(i as int);
        let n = argv.len();
        proof {
            lemma_entries_model(self.commands@, 0);
        }
        if i < n {
            proof {
                assert(rel[0] == argv@[i as int]@);
                assert(rel.drop_first() =~= token_views(argv@).skip(i as int + 1));
            }
            let j_opt = self.child_index(&argv[i]);
            match j_opt {
                Some(j) => {
                    proof {
                        lemma_key_index_from(m_old.commands, argv@[i as int]@, 0);
                    }
                    let ghost cmds_old = self.commands@;
                    let mut pair = self.commands.remove(j);
                    let ghost child_old = pair.1;
                    pair.1._exec(argv, i + 1);
                    self.commands.insert(j, pair);
                    proof {
                        assert(self.commands@ =~= cmds_old.update(
                            j as int,
                            (cmds_old[j as int].0, pair.1),
                        ));
                        lemma_entries_model(self.commands@, 0);
                        assert(self.model().commands =~= m_old.commands.update(
                            j as int,
                            (
                                rel[0],
                                spec_exec::<E, C>(
                                    child_old.model(),
                                    rel.drop_first(),
                                    token_views(argv@),
                                ),
                            ),
                        ));
                        assert(self.model() =~= spec_exec::<E, C>(m_old, rel, token_views(argv@)));
                    }
                }
                None => {
                    self.invoke_exec(argv);
                }
            }
        } else {
            proof {
                assert(rel =~= Seq::<Seq<char>>::empty());
            }
            self.invoke_exec(argv);
        }
    }

    /// The registered command at the end of the given token path, if the
    /// path's nodes all exist and the final one holds a handler.
    pub fn handler_at(&self, path: &Vec<String>) -> (r: Option<&Command<E, C>>)
        ensures
            match r {
                Some(c) => self.model().handler_at(token_views(path@)) == Some(c.model()),
                None => self.model().handler_at(token_views(path@)) is None,
            },
    {
        let n = path.len();
        let mut cur: &Cli<E, C> = self;
        let mut i: usize = 0;
        proof {
            assert(token_views(path@).skip(0) =~= token_views(path@));
        }
        while i < n
            invariant
                i <= n,
                n == path@.len(),
                self.model().node_at(token_views(path@)) == cur.model().node_at(
                    token_views(path@).skip(i as int),
                ),
            decreases n - i,
        {
            let ghost rel = token_views(path@).skip(i as int);
            proof {
                lemma_entries_model(cur.commands@, 0);
                assert(rel[0] == path@[i as int]@);
                assert(rel.drop_first() =~= token_views(path@).skip(i as int + 1));
            }
            let j_opt = cur.child_index(&path[i]);
            match j_opt {
                Some(j) => {
                    proof {
                        lemma_key_index_from(cur.model().commands, path@[i as int]@, 0);
                    }
                    cur = &cur.commands[j].1;
                }
                None => {
                    return None;
                }
            }
            i = i + 1;
        }
        proof {
            assert(token_views(path@).skip(n as int) =~= Seq::<Seq<char>>::empty());
        }
        match &cur.handler {
            Some(c) => Some(c),
            None => None,
        }
    }

    /// Whether this node holds a handler with a dynamic-completion callback.
    fn has_dyn_handler(&self) -> (r: bool)
        ensures
            r == has_dyn(self.model()),
    {
        match &self.handler {
            Some(c) => c.complete_cb.is_some(),
            None => false,
        }
    }

    /// Invokes this node's dynamic-completion callback with the given tokens,
    /// if the handler holds one, and returns its candidates.
    fn invoke_complete(&mut self, args: &Vec<String>) -> (r: Vec<String>)
        ensures
            ({
                let inv = spec_invoke_complete::<E, C>(old(self).model(), token_views(args@));
                final(self).model() == inv.0 && token_views(r@) == inv.1
            }),
    {
        let h = self.handler.take();
        match h {
            Some(mut cmdv) => {
                let c_opt = cmdv.complete_cb.take();
                match c_opt {
                    Some(mut cc) => {
                        let out = cc.call_complete(args);
                        cmdv.complete_cb = Some(cc);
                        self.handler = Some(cmdv);
                        proof {
                            assert(self.model() =~= spec_invoke_complete::<E, C>(
                                old(self).model(),
                                token_views(args@),
                            ).0);
                        }
                        out
                    }
                    None => {
                        self.handler = Some(cmdv);
                        let r: Vec<String> = Vec::new();
                        proof {
                            assert(self.model() =~= old(self).model());
                            assert(token_views(r@) =~= Seq::<Seq<char>>::empty());
                        }
                        r
                    }
                }
            }
            None => {
                let r: Vec<String> = Vec::new();
                proof {
                    assert(self.model() =~= old(self).model());
                    assert(token_views(r@) =~= Seq::<Seq<char>>::empty());
                }
                r
            }
        }
    }

    /// Fresh copies of all child keys of this node, in order.
    fn collect_child_keys(&self) -> (r: Vec<String>)
        ensures
            token_views(r@) == self.model().child_keys(),
    {
        let ghost m = self.model();
        proof {
            lemma_entries_model(self.commands@, 0);
        }
        let mut r: Vec<String> = Vec::new();
        let mut j: usize = 0;
        while j < self.commands.len()
            invariant
                j <= self.commands@.len(),
                m == self.model(),
                m.commands.len() == self.commands@.len(),
                forall|k: int|
                    0 <= k < self.commands@.len() ==> #[trigger] m.commands[k] == (
                        self.commands@[k].0@,
                        self.commands@[k].1.model(),
                    ),
                token_views(r@) == m.child_keys().take(j as int),
            decreases self.commands@.len() - j,
        {
            let ghost prev = r@;
            r.push(self.commands[j].0.clone());
            proof {
                assert(token_views(r@) =~= token_views(prev).push(self.commands@[j as int].0@));
                assert(m.child_keys().take(j as int + 1) =~= m.child_keys().take(j as int).push(
                    m.commands[j as int].0,
                ));
            }
            j = j + 1;
        }
        proof {
            assert(m.child_keys().take(self.commands@.len() as int) =~= m.child_keys());
        }
        r
    }

    /// Fresh copies of the child keys that `pre` is a literal prefix of, in
    /// order.
    fn collect_matching_keys(&self, pre: &String) -> (r: Vec<String>)
        ensures
            token_views(r@) == prefix_filter(self.model().child_keys(), pre@),
    {
        let ghost m = self.model();
        let ghost p = (|k: Seq<char>| pre@.is_prefix_of(k));
        proof {
            lemma_entries_model(self.commands@, 0);
        }
        let mut r: Vec<String> = Vec::new();
        let mut j: usize = 0;
        while j < self.commands.len()
            invariant
                j <= self.commands@.len(),
                m == self.model(),
                m.commands.len() == self.commands@.len(),
                forall|k: int|
                    0 <= k < self.commands@.len() ==> #[trigger] m.commands[k] == (
                        self.commands@[k].0@,
                        self.commands@[k].1.model(),
                    ),
                p == (|k: Seq<char>| pre@.is_prefix_of(k)),
                token_views(r@) == m.child_keys().take(j as int).filter(p),
            decreases self.commands@.len() - j,
        {
            let ghost prev = r@;
            proof {
                reveal(Seq::filter);
                assert(m.child_keys().take(j as int + 1).drop_last() =~= m.child_keys().take(
                    j as int,
                ));
                assert(m.child_keys().take(j as int + 1).last() == m.commands[j as int].0);
            }
            if str_starts_with(&self.commands[j].0, pre) {
                r.push(self.commands[j].0.clone());
                proof {
                    assert(token_views(r@) =~= token_views(prev).push(
                        self.commands@[j as int].0@,
                    ));
                }
            }
            j = j + 1;
        }
        proof {
            assert(m.child_keys().take(self.commands@.len() as int) =~= m.child_keys());
        }
        r
    }

    /// Descends along `toks[i..]` while children match and builds the
    /// completion candidates at the node where descent stops.
    fn _complete(&mut self, toks: &Vec<String>, i: usize) -> (r: Vec<String>)
        requires
            i <= toks@.len(),
        ensures
            ({
                let sc = spec_complete::<E, C>(
                    old(self).model(),
                    token_views(toks@).skip(i as int),
                );
                final(self).model() == sc.0 && token_views(r@) == sc.1
            }),
        decreases toks@.len() - i,
    {
        let ghost m_old = self.model();
        let ghost rel = token_views(toks@).skip(i as int);
        let n = toks.len();
        proof {
            lemma_entries_model(self.commands@, 0);
        }
        if i < n {
            proof {
                assert(rel[0] == toks@[i as int]@);
                assert(rel.drop_first() =~= token_views(toks@).skip(i as int + 1));
            }
            let j_opt = self.child_index(&toks[i]);
            match j_opt {
                Some(j) => {
                    proof {
                        lemma_key_index_from(m_old.commands, toks@[i as int]@, 0);
                    }
                    let ghost cmds_old = self.commands@;
                    let mut pair = self.commands.remove(j);
                    let ghost child_old = pair.1;
                    let out = pair.1._complete(toks, i + 1);
                    self.commands.insert(j, pair);
                    proof {
                        assert(self.commands@ =~= cmds_old.update(
                            j as int,
                            (cmds_old[j as int].0, pair.1),
                        ));
                        lemma_entries_model(self.commands@, 0);
                        let sub = spec_complete::<E, C>(child_old.model(), rel.drop_first());
                        assert(self.model().commands =~= m_old.commands.update(
                            j as int,
                            (rel[0], sub.0),
                        ));
                        assert(self.model() =~= spec_complete::<E, C>(m_old, rel).0);
                    }
                    out
                }
                None => {
                    let args = copy_tokens_from(toks, i);
                    let mut out = self.invoke_complete(&args);
                    let ghost out_pre = out@;
                    let mut keys = self.collect_matching_keys(&toks[i]);
                    let ghost keys_pre = keys@;
                    out.append(&mut keys);
                    proof {
                        assert(token_views(out@) =~= token_views(out_pre) + token_views(keys_pre));
                        assert(self.model().child_keys() == m_old.child_keys());
                        let sc = spec_complete::<E, C>(m_old, rel);
                        assert(token_views(out@) =~= sc.1);
                    }
                    out
                }
            }
        } else {
            proof {
                assert(rel =~= Seq::<Seq<char>>::empty());
            }
            if self.has_dyn_handler() {
                let mut args: Vec<String> = Vec::new();
                args.push(String::new());
                proof {
                    assert(token_views(args@) =~= sentinel_args());
                }
                let out = self.invoke_complete(&args);
                out
            } else {
                let out = self.collect_child_keys();
                out
            }
        }
    }

    /// Returns the completion candidates for the input line `argv`: tokens
    /// that could extend the line, from the dynamic-completion callback at
    /// the reached node and from the child keys there.
    pub fn complete(&mut self, argv: &str) -> (r: Vec<String>)
        ensures
            ({
                let sc = spec_complete::<E, C>(old(self).model(), tokens_of(argv@));
                final(self).model() == sc.0 && token_views(r@) == sc.1
            }),
            old(self).model().wf() ==> final(self).model().wf(),
    {
        let ghost m_old = self.model();
        let toks = tokenize(argv);
        proof {
            assert(token_views(toks@).skip(0) =~= token_views(toks@));
            if m_old.wf() {
                lemma_complete_preserves_wf::<E, C>(m_old, tokens_of(argv@));
            }
        }
        self._complete(&toks, 0)
    }

    /// Calls the execution callback registered for the command line `cmd`:
    /// tokenizes the line, descends while tokens match children, and invokes
    /// the handler of the node where descent stops with the full token
    /// sequence. Without a handler there, the call does nothing.
    pub fn exec(&mut self, cmd: &str)
        ensures
            final(self).model() == spec_exec::<E, C>(
                old(self).model(),
                tokens_of(cmd@),
                tokens_of(cmd@),
            ),
            old(self).model().wf() ==> final(self).model().wf(),
    {
        let ghost m_old = self.model();
        let argv = tokenize(cmd);
        proof {
            assert(token_views(argv@).skip(0) =~= token_views(argv@));
            if m_old.wf() {
                lemma_exec_preserves_wf::<E, C>(m_old, tokens_of(cmd@), tokens_of(cmd@));
            }
        }
        self._exec(&argv, 0);
    }
}

} // verus!
