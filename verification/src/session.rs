use super::handler::{CompleteHandler, ExecHandler};
use super::key::Key;
use super::tokens::{token_views, tokens_of};
use super::trie::{spec_complete, spec_exec, Cli};
use vstd::prelude::*;

verus! {

/// The prompt printed before each line of input.
pub open spec fn prompt_chars() -> Seq<char> {
    seq!['>', '>', ' ']
}

/// The character echoed for a digit key.
pub open spec fn digit_char(d: u8) -> char {
    (((d % 10) + 0x30) as u8) as char
}

/// What one step of the line session asks the terminal to do: characters to
/// write, then the completion candidates (each followed by a space), then
/// more characters to write.
pub struct StepOutput {
    pub keep_running: bool,
    pub echo: Vec<char>,
    pub suggestions: Option<Vec<String>>,
    pub tail: Vec<char>,
}

/// Relies on String::push: appends exactly one character.
#[verifier::external_body]
fn push_char(s: &mut String, c: char)
    ensures
        final(s)@ == old(s)@.push(c),
{
    s.push(c);
}

/// Relies on String::pop: removes the last character, if there is one.
#[verifier::external_body]
fn pop_char(s: &mut String)
    ensures
        old(s)@.len() == 0 ==> final(s)@ == old(s)@,
        old(s)@.len() > 0 ==> final(s)@ == old(s)@.drop_last(),
{
    s.pop();
}

/// The characters of a string, as a vector.
fn chars_of(s: &str) -> (r: Vec<char>)
    ensures
        r@ == s@,
{
    let n = s.unicode_len();
    let mut r: Vec<char> = Vec::new();
    let mut i: usize = 0;
    while i < n
        invariant
            i <= n,
            n == s@.len(),
            r@ == s@.take(i as int),
        decreases n - i,
    {
        r.push(s.get_char(i));
        proof {
            assert(s@.take(i as int + 1) =~= s@.take(i as int).push(s@[i as int]));
        }
        i = i + 1;
    }
    proof {
        assert(s@.take(n as int) =~= s@);
    }
    r
}

/// One step of the terminal line session: reacts to one decoded key by
/// editing the line buffer, echoing, and driving the command trie. Printable
/// keys append to the buffer and echo themselves; erasing keys drop the last
/// buffer character and echo a destructive backspace; Tab asks the trie for
/// completions of the unmodified buffer; Enter executes the buffer and clears
/// it; Ctrl-C ends the session; an arrow key does nothing.
pub fn session_step<E: ExecHandler, C: CompleteHandler>(
    cli: &mut Cli<E, C>,
    buffer: &mut String,
    key: Key,
) -> (r: StepOutput)
    ensures
        (key matches Key::Char(c) ==> *final(cli) == *old(cli) && final(buffer)@ == old(buffer)@.push(
            c,
        ) && r.keep_running && r.echo@ == seq![c] && r.suggestions is None && r.tail@ == Seq::<
            char,
        >::empty()),
        (key matches Key::Symbol(c) ==> *final(cli) == *old(cli) && final(buffer)@ == old(
            buffer,
        )@.push(c) && r.keep_running && r.echo@ == seq![c] && r.suggestions is None && r.tail@
            == Seq::<char>::empty()),
        (key matches Key::Digit(d) ==> *final(cli) == *old(cli) && final(buffer)@ == old(
            buffer,
        )@.push(digit_char(d)) && r.keep_running && r.echo@ == seq![digit_char(d)]
            && r.suggestions is None && r.tail@ == Seq::<char>::empty()),
        (key is Whitespace ==> *final(cli) == *old(cli) && final(buffer)@ == old(buffer)@.push(' ')
            && r.keep_running && r.echo@ == seq![' '] && r.suggestions is None && r.tail@ == Seq::<
            char,
        >::empty()),
        ((key is Backspace || key is Del) ==> *final(cli) == *old(cli) && (old(buffer)@.len() == 0
            ==> final(buffer)@ == old(buffer)@) && (old(buffer)@.len() > 0 ==> final(buffer)@ == old(
            buffer,
        )@.drop_last()) && r.keep_running && r.echo@ == seq![(8u8 as char), ' ', (8u8 as char)]
            && r.suggestions is None && r.tail@ == Seq::<char>::empty()),
        (key is Tab ==> ({
            let sc = spec_complete::<E, C>(old(cli).model(), tokens_of(old(buffer)@));
            &&& final(cli).model() == sc.0
            &&& final(buffer)@ == old(buffer)@
            &&& r.keep_running
            &&& r.echo@ == seq!['\n']
            &&& (r.suggestions matches Some(v) && token_views(v@) == sc.1)
            &&& r.tail@ == seq!['\n'] + prompt_chars() + old(buffer)@
        })),
        (key is Newline ==> final(cli).model() == spec_exec::<E, C>(
            old(cli).model(),
            tokens_of(old(buffer)@),
            tokens_of(old(buffer)@),
        ) && final(buffer)@ == Seq::<char>::empty() && r.keep_running && r.echo@ == seq!['\n']
            && r.suggestions is None && r.tail@ == prompt_chars()),
        (key is Etx ==> *final(cli) == *old(cli) && final(buffer)@ == old(buffer)@
            && !r.keep_running && r.echo@ == seq!['\n'] && r.suggestions is None && r.tail@ == Seq::<
            char,
        >::empty()),
        (key is Arrow ==> *final(cli) == *old(cli) && final(buffer)@ == old(buffer)@
            && r.keep_running && r.echo@ == Seq::<char>::empty() && r.suggestions is None
            && r.tail@ == Seq::<char>::empty()),
{
    match key {
        Key::Char(c) => {
            push_char(buffer, c);
            let mut echo: Vec<char> = Vec::new();
            echo.push(c);
            proof {
                assert(echo@ =~= seq![c]);
            }
            StepOutput { keep_running: true, echo, suggestions: None, tail: Vec::new() }
        }
        Key::Symbol(c) => {
            push_char(buffer, c);
            let mut echo: Vec<char> = Vec::new();
            echo.push(c);
            proof {
                assert(echo@ =~= seq![c]);
            }
            StepOutput { keep_running: true, echo, suggestions: None, tail: Vec::new() }
        }
        Key::Digit(d) => {
            let c = ((d % 10) + 0x30) as char;
            push_char(buffer, c);
            let mut echo: Vec<char> = Vec::new();
            echo.push(c);
            proof {
                assert(echo@ =~= seq![digit_char(d)]);
            }
            StepOutput { keep_running: true, echo, suggestions: None, tail: Vec::new() }
        }
        Key::Whitespace => {
            push_char(buffer, ' ');
            let mut echo: Vec<char> = Vec::new();
            echo.push(' ');
            proof {
                assert(echo@ =~= seq![' ']);
            }
            StepOutput { keep_running: true, echo, suggestions: None, tail: Vec::new() }
        }
        Key::Backspace | Key::Del => {
            pop_char(buffer);
            let mut echo: Vec<char> = Vec::new();
            echo.push(8u8 as char);
            echo.push(' ');
            echo.push(8u8 as char);
            proof {
                assert(echo@ =~= seq![(8u8 as char), ' ', (8u8 as char)]);
            }
            StepOutput { keep_running: true, echo, suggestions: None, tail: Vec::new() }
        }
        Key::Tab => {
            let candidates = cli.complete(buffer.as_str());
            let mut echo: Vec<char> = Vec::new();
            echo.push('\n');
            let mut tail: Vec<char> = Vec::new();
            tail.push('\n');
            tail.push('>');
            tail.push('>');
            tail.push(' ');
            let mut rest = chars_of(buffer.as_str());
            let ghost tail_pre = tail@;
            let ghost rest_pre = rest@;
            tail.append(&mut rest);
            proof {
                assert(echo@ =~= seq!['\n']);
                assert(tail_pre =~= seq!['\n'] + prompt_chars());
                assert(tail@ =~= seq!['\n'] + prompt_chars() + buffer@);
            }
            StepOutput { keep_running: true, echo, suggestions: Some(candidates), tail }
        }
        Key::Newline => {
            cli.exec(buffer.as_str());
            *buffer = String::new();
            let mut echo: Vec<char> = Vec::new();
            echo.push('\n');
            let mut tail: Vec<char> = Vec::new();
            tail.push('>');
            tail.push('>');
            tail.push(' ');
            proof {
                assert(echo@ =~= seq!['\n']);
                assert(tail@ =~= prompt_chars());
            }
            StepOutput { keep_running: true, echo, suggestions: None, tail }
        }
        Key::Etx => {
            let mut echo: Vec<char> = Vec::new();
            echo.push('\n');
            proof {
                assert(echo@ =~= seq!['\n']);
            }
            StepOutput { keep_running: false, echo, suggestions: None, tail: Vec::new() }
        }
        Key::Arrow(_) => {
            StepOutput { keep_running: true, echo: Vec::new(), suggestions: None, tail: Vec::new() }
        }
    }
}

} // verus!
