use vstd::prelude::*;

verus! {

/// ASCII whitespace: the separators that delimit tokens. Repeated separators
/// collapse and leading/trailing separators are trimmed by tokenization.
pub open spec fn is_space_char(c: char) -> bool {
    c == ' ' || c == '\t' || c == '\n' || c == '\r'
}

/// Splitting a character stream into tokens, carrying the partial token `cur`
/// accumulated so far. This walks the stream one character at a time, closing
/// the current token at each separator.
pub open spec fn tokens_acc(s: Seq<char>, cur: Seq<char>) -> Seq<Seq<char>>
    decreases s.len(),
{
    if s.len() == 0 {
        if cur.len() == 0 {
            Seq::empty()
        } else {
            seq![cur]
        }
    } else if is_space_char(s[0]) {
        if cur.len() == 0 {
            tokens_acc(s.drop_first(), cur)
        } else {
            seq![cur] + tokens_acc(s.drop_first(), Seq::empty())
        }
    } else {
        tokens_acc(s.drop_first(), cur.push(s[0]))
    }
}

/// The token sequence of an input line: maximal runs of non-separator
/// characters, in order.
pub open spec fn tokens_of(s: Seq<char>) -> Seq<Seq<char>> {
    tokens_acc(s, Seq::empty())
}

/// The character sequences of a sequence of owned strings.
pub open spec fn token_views(v: Seq<String>) -> Seq<Seq<char>> {
    v.map_values(|t: String| t@)
}

/// A token proper: non-empty and free of separators.
pub open spec fn valid_token(t: Seq<char>) -> bool {
    t.len() > 0 && (forall|i: int| 0 <= i < t.len() ==> !is_space_char(t[i]))
}

pub open spec fn valid_tokens(p: Seq<Seq<char>>) -> bool {
    forall|i: int| 0 <= i < p.len() ==> valid_token(#[trigger] p[i])
}

/// The space-joined line of a token path.
pub open spec fn joined(p: Seq<Seq<char>>) -> Seq<char>
    decreases p.len(),
{
    if p.len() == 0 {
        Seq::empty()
    } else if p.len() == 1 {
        p[0]
    } else {
        p[0] + seq![' '] + joined(p.drop_first())
    }
}

/// Walking a separator-free run extends the partial token and closes nothing.
pub proof fn lemma_tokens_acc_run(t: Seq<char>, s: Seq<char>, cur: Seq<char>)
    requires
        forall|i: int| 0 <= i < t.len() ==> !is_space_char(t[i]),
    ensures
        tokens_acc(t + s, cur) == tokens_acc(s, cur + t),
    decreases t.len(),
{
    if t.len() == 0 {
        assert(t + s =~= s);
        assert(cur + t =~= cur);
    } else {
        assert((t + s).len() > 0);
        assert((t + s)[0] == t[0]);
        assert((t + s).drop_first() =~= t.drop_first() + s);
        lemma_tokens_acc_run(t.drop_first(), s, cur.push(t[0]));
        assert(cur.push(t[0]) + t.drop_first() =~= cur + t);
    }
}

/// Tokenizing the space-joined line of a path of proper tokens gives the path
/// back unchanged.
pub proof fn lemma_tokens_of_joined(p: Seq<Seq<char>>)
    requires
        valid_tokens(p),
    ensures
        tokens_of(joined(p)) == p,
    decreases p.len(),
{
    if p.len() == 0 {
        assert(tokens_of(joined(p)) =~= p);
    } else if p.len() == 1 {
        assert(valid_token(p[0]));
        assert(p[0] + Seq::<char>::empty() =~= p[0]);
        lemma_tokens_acc_run(p[0], Seq::empty(), Seq::empty());
        assert(Seq::<char>::empty() + p[0] =~= p[0]);
        assert(tokens_acc(Seq::<char>::empty(), p[0]) == seq![p[0]]);
        assert(seq![p[0]] =~= p);
    } else {
        let rest = p.drop_first();
        let tail = seq![' '] + joined(rest);
        assert(valid_token(p[0]));
        assert(p[0] + tail =~= joined(p));
        lemma_tokens_acc_run(p[0], tail, Seq::empty());
        assert(Seq::<char>::empty() + p[0] =~= p[0]);
        assert(tail[0] == ' ');
        assert(tail.drop_first() =~= joined(rest));
        assert(tokens_acc(tail, p[0]) == seq![p[0]] + tokens_acc(joined(rest), Seq::empty()));
        assert forall|i: int| 0 <= i < rest.len() implies valid_token(#[trigger] rest[i]) by {
            assert(rest[i] == p[i + 1]);
        }
        lemma_tokens_of_joined(rest);
        assert(seq![p[0]] + rest =~= p);
    }
}

/// A fresh copy of the tail of a token vector, starting at `i`.
pub fn copy_tokens_from(v: &Vec<String>, i: usize) -> (r: Vec<String>)
    requires
        i <= v@.len(),
    ensures
        token_views(r@) == token_views(v@).skip(i as int),
{
    let mut r: Vec<String> = Vec::new();
    let mut j = i;
    while j < v.len()
        invariant
            i <= j <= v@.len(),
            token_views(r@) == token_views(v@).subrange(i as int, j as int),
        decreases v@.len() - j,
    {
        let ghost prev = r@;
        r.push(v[j].clone());
        proof {
            assert(token_views(r@) =~= token_views(prev).push(v@[j as int]@));
            assert(token_views(v@).subrange(i as int, j as int + 1) =~= token_views(v@).subrange(
                i as int,
                j as int,
            ).push(v@[j as int]@));
        }
        j = j + 1;
    }
    proof {
        assert(token_views(v@).subrange(i as int, v@.len() as int) =~= token_views(v@).skip(
            i as int,
        ));
    }
    r
}

fn is_space(c: char) -> (r: bool)
    ensures
        r == is_space_char(c),
{
    c == ' ' || c == '\t' || c == '\n' || c == '\r'
}

/// True when position `i` holds a further, non-separator character.
fn nonspace_at(line: &str, i: usize, n: usize) -> (r: bool)
    requires
        n == line@.len(),
        i <= n,
    ensures
        r == (i < n && !is_space_char(line@[i as int])),
{
    if i < n {
        !is_space(line.get_char(i))
    } else {
        false
    }
}

/// Splits an input line into its tokens, trimming separators and collapsing
/// runs of them.
pub fn tokenize(line: &str) -> (r: Vec<String>)
    ensures
        token_views(r@) == tokens_of(line@),
{
    let n = line.unicode_len();
    let mut toks: Vec<String> = Vec::new();
    let mut i: usize = 0;
    proof {
        assert(line@.skip(0) =~= line@);
        assert(token_views(toks@) + tokens_acc(line@, Seq::empty()) =~= tokens_of(line@));
    }
    while i < n
        invariant
            i <= n,
            n == line@.len(),
            tokens_of(line@) == token_views(toks@) + tokens_acc(
                line@.skip(i as int),
                Seq::empty(),
            ),
        decreases n - i,
    {
        let c = line.get_char(i);
        if is_space(c) {
            proof {
                assert(line@.skip(i as int).drop_first() =~= line@.skip(i as int + 1));
            }
            i = i + 1;
        } else {
            let start = i;
            proof {
                assert(line@.skip(start as int).drop_first() =~= line@.skip(start as int + 1));
                assert(line@.subrange(start as int, start as int + 1) =~= Seq::empty().push(
                    line@[start as int],
                ));
            }
            i = i + 1;
            while nonspace_at(line, i, n)
                invariant
                    start < i <= n,
                    n == line@.len(),
                    tokens_acc(line@.skip(start as int), Seq::empty()) == tokens_acc(
                        line@.skip(i as int),
                        line@.subrange(start as int, i as int),
                    ),
                    line@.subrange(start as int, i as int).len() > 0,
                decreases n - i,
            {
                proof {
                    assert(line@.skip(i as int).drop_first() =~= line@.skip(i as int + 1));
                    assert(line@.subrange(start as int, i as int).push(line@[i as int]) =~= line@
                        .subrange(start as int, i as int + 1));
                }
                i = i + 1;
            }
            let t = line.substring_char(start, i);
            let ts = String::from_str(t);
            let ghost prev = toks@;
            toks.push(ts);
            proof {
                let cur = line@.subrange(start as int, i as int);
                if i < n {
                    // a separator stopped the token
                    assert(is_space_char(line@[i as int]));
                    assert(line@.skip(i as int).drop_first() =~= line@.skip(i as int + 1));
                    assert(tokens_acc(line@.skip(i as int), cur) == seq![cur] + tokens_acc(
                        line@.skip(i as int),
                        Seq::empty(),
                    ));
                } else {
                    assert(line@.skip(i as int) =~= Seq::<char>::empty());
                    assert(tokens_acc(line@.skip(i as int), cur) =~= seq![cur] + tokens_acc(
                        line@.skip(i as int),
                        Seq::empty(),
                    ));
                }
                assert(token_views(toks@) =~= token_views(prev).push(cur));
                assert(token_views(prev).push(cur) + tokens_acc(line@.skip(i as int), Seq::empty())
                    =~= token_views(prev) + (seq![cur] + tokens_acc(
                    line@.skip(i as int),
                    Seq::empty(),
                )));
            }
        }
    }
    proof {
        assert(line@.skip(n as int) =~= Seq::<char>::empty());
        assert(token_views(toks@) + tokens_acc(line@.skip(n as int), Seq::empty()) =~= token_views(
            toks@,
        ));
    }
    toks
}

} // verus!
