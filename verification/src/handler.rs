use super::tokens::{copy_tokens_from, token_views};
use std::io::Write;
use vstd::prelude::*;

verus! {

/// The execution callback half of a handler. An implementation carries
/// whatever state the callback works on; `model` abstracts that state and
/// `on_exec` says how one invocation transforms it. The engine invokes the
/// callback through `call_exec`, always with the full token sequence of the
/// original input line.
pub trait ExecHandler: Sized {
    type Model;

    /// The abstract state of the callback.
    spec fn model(self) -> Self::Model;

    /// The abstract state after one invocation with the given tokens.
    spec fn on_exec(pre: Self::Model, args: Seq<Seq<char>>) -> Self::Model;

    /// One invocation of the callback.
    fn call_exec(&mut self, args: &Vec<String>)
        ensures
            final(self).model() == Self::on_exec(old(self).model(), token_views(args@)),
    ;
}

/// The dynamic-completion callback half of a handler: invoked at completion
/// time with the remaining input tokens, it produces candidate tokens that may
/// depend on runtime state. `suggestions` gives the candidates returned for a
/// given abstract state and arguments; `on_complete` the state afterwards.
pub trait CompleteHandler: Sized {
    type Model;

    /// The abstract state of the callback.
    spec fn model(self) -> Self::Model;

    /// The abstract state after one invocation with the given tokens.
    spec fn on_complete(pre: Self::Model, args: Seq<Seq<char>>) -> Self::Model;

    /// The candidate tokens one invocation returns.
    spec fn suggestions(pre: Self::Model, args: Seq<Seq<char>>) -> Seq<Seq<char>>;

    /// One invocation of the callback.
    fn call_complete(&mut self, args: &Vec<String>) -> (r: Vec<String>)
        ensures
            final(self).model() == Self::on_complete(old(self).model(), token_views(args@)),
            token_views(r@) == Self::suggestions(old(self).model(), token_views(args@)),
    ;
}

/// A call count one step further on, saturating at the top.
pub open spec fn next_count(c: u64) -> u64 {
    if c == u64::MAX {
        c
    } else {
        (c + 1) as u64
    }
}

/// Abstract state of [`CountingExec`].
#[verifier::ext_equal]
pub struct CountingModel {
    pub calls: u64,
    pub last_args: Seq<Seq<char>>,
}

/// An execution callback that counts its invocations and keeps the argument
/// tokens of the latest one.
pub struct CountingExec {
    pub calls: u64,
    pub last_args: Vec<String>,
}

impl CountingExec {
    pub fn new() -> (r: CountingExec)
        ensures
            r.model() == (CountingModel { calls: 0, last_args: Seq::empty() }),
    {
        let r = CountingExec { calls: 0, last_args: Vec::new() };
        proof {
            assert(token_views(r.last_args@) =~= Seq::<Seq<char>>::empty());
            assert(r.model() =~= CountingModel { calls: 0, last_args: Seq::empty() });
        }
        r
    }
}

impl ExecHandler for CountingExec {
    type Model = CountingModel;

    open spec fn model(self) -> CountingModel {
        CountingModel { calls: self.calls, last_args: token_views(self.last_args@) }
    }

    open spec fn on_exec(pre: CountingModel, args: Seq<Seq<char>>) -> CountingModel {
        CountingModel { calls: next_count(pre.calls), last_args: args }
    }

    fn call_exec(&mut self, args: &Vec<String>) {
        if self.calls < u64::MAX {
            self.calls = self.calls + 1;
        }
        self.last_args = copy_tokens_from(args, 0);
        proof {
            assert(token_views(args@).skip(0) =~= token_views(args@));
            assert(self.model() =~= Self::on_exec(old(self).model(), token_views(args@)));
        }
    }
}

/// Abstract state of [`StaticComplete`].
#[verifier::ext_equal]
pub struct StaticCompleteModel {
    pub items: Seq<Seq<char>>,
    pub calls: u64,
    pub last_args: Seq<Seq<char>>,
}

/// A completion callback that always suggests the same fixed candidates,
/// while counting its invocations and keeping the argument tokens of the
/// latest one.
pub struct StaticComplete {
    pub items: Vec<String>,
    pub calls: u64,
    pub last_args: Vec<String>,
}

impl StaticComplete {
    pub fn new(items: Vec<String>) -> (r: StaticComplete)
        ensures
            r.model() == (StaticCompleteModel {
                items: token_views(items@),
                calls: 0,
                last_args: Seq::empty(),
            }),
    {
        let r = StaticComplete { items, calls: 0, last_args: Vec::new() };
        proof {
            assert(token_views(r.last_args@) =~= Seq::<Seq<char>>::empty());
            assert(r.model() =~= StaticCompleteModel {
                items: token_views(r.items@),
                calls: 0,
                last_args: Seq::empty(),
            });
        }
        r
    }
}

impl CompleteHandler for StaticComplete {
    type Model = StaticCompleteModel;

    open spec fn model(self) -> StaticCompleteModel {
        StaticCompleteModel {
            items: token_views(self.items@),
            calls: self.calls,
            last_args: token_views(self.last_args@),
        }
    }

    open spec fn on_complete(pre: StaticCompleteModel, args: Seq<Seq<char>>) -> StaticCompleteModel {
        StaticCompleteModel { items: pre.items, calls: next_count(pre.calls), last_args: args }
    }

    open spec fn suggestions(pre: StaticCompleteModel, args: Seq<Seq<char>>) -> Seq<Seq<char>> {
        pre.items
    }

    fn call_complete(&mut self, args: &Vec<String>) -> (r: Vec<String>) {
        if self.calls < u64::MAX {
            self.calls = self.calls + 1;
        }
        self.last_args = copy_tokens_from(args, 0);
        let r = copy_tokens_from(&self.items, 0);
        proof {
            assert(token_views(args@).skip(0) =~= token_views(args@));
            assert(token_views(self.items@).skip(0) =~= token_views(self.items@));
            assert(self.model() =~= Self::on_complete(old(self).model(), token_views(args@)));
        }
        r
    }
}

/// An execution callback that prints a fixed message on each invocation and
/// holds no other state. Meant for interactive front ends.
pub struct PrintingExec {
    pub message: String,
}

impl ExecHandler for PrintingExec {
    type Model = Seq<char>;

    open spec fn model(self) -> Seq<char> {
        self.message@
    }

    open spec fn on_exec(pre: Seq<char>, args: Seq<Seq<char>>) -> Seq<char> {
        pre
    }

    #[allow(unused_variables)]
    fn call_exec(&mut self, args: &Vec<String>) {
        print_note(self.message.as_str());
    }
}

/// The absent dynamic-completion callback: a placeholder type for commands
/// registered without one.
pub struct NoComplete;

impl CompleteHandler for NoComplete {
    type Model = ();

    open spec fn model(self) -> () {
        ()
    }

    open spec fn on_complete(pre: (), args: Seq<Seq<char>>) -> () {
        ()
    }

    open spec fn suggestions(pre: (), args: Seq<Seq<char>>) -> Seq<Seq<char>> {
        Seq::empty()
    }

    #[allow(unused_variables)]
    fn call_complete(&mut self, args: &Vec<String>) -> (r: Vec<String>) {
        let r: Vec<String> = Vec::new();
        proof {
            assert(token_views(r@) =~= Seq::<Seq<char>>::empty());
        }
        r
    }
}

/// Relies on std::io::Stdout and the writeln macro: prints one line to
/// standard output.
#[verifier::external_body]
fn print_note(s: &str) {
    let mut out = std::io::stdout();
    let _ = writeln!(out, "{}", s);
}

} // verus!
