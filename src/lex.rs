use vstd::prelude::*;

use crate::text::{chars_of, is_space, is_whitespace, push_char};

verus! {

/// A token as the proofs see it.
pub enum Tok {
    Word(Seq<char>),
    Open,
    Close,
}

/// A lexical token: a word, or a grouping parenthesis.
#[derive(Debug, PartialEq, Eq)]
pub enum Token {
    String(String),
    LParen,
    RParen,
}

impl View for Token {
    type V = Tok;

    open spec fn view(&self) -> Tok {
        match self {
            Token::String(s) => Tok::Word(s@),
            Token::LParen => Tok::Open,
            Token::RParen => Tok::Close,
        }
    }
}

/// The abstract view of a token sequence.
pub open spec fn toks(ts: Seq<Token>) -> Seq<Tok> {
    ts.map_values(|t: Token| t@)
}

/// Whether `c` separates words: the space, or any other whitespace
/// character.
pub open spec fn separates(c: char) -> bool {
    c == ' ' || is_space(c)
}

/// Whether `c` starts a word.
pub open spec fn starts_word(c: char) -> bool {
    c != '(' && c != ')' && !separates(c)
}

/// The length of the word at the start of `r`, scanned with `depth` of its
/// own parentheses open: it ends at a `)` or a separator met while none of
/// its parentheses is open, or at the end of the text.
pub open spec fn word_len(r: Seq<char>, depth: nat) -> nat
    decreases r.len(),
{
    if r.len() == 0 {
        0
    } else if r[0] == '(' {
        1 + word_len(r.drop_first(), depth + 1)
    } else if r[0] == ')' {
        if depth > 0 {
            1 + word_len(r.drop_first(), (depth - 1) as nat)
        } else {
            0
        }
    } else if separates(r[0]) && depth == 0 {
        0
    } else {
        1 + word_len(r.drop_first(), depth)
    }
}

pub proof fn lemma_word_len_bounds(r: Seq<char>, depth: nat)
    ensures
        word_len(r, depth) <= r.len(),
        r.len() > 0 && starts_word(r[0]) ==> word_len(r, depth) >= 1,
    decreases r.len(),
{
    if r.len() > 0 {
        if r[0] == '(' {
            lemma_word_len_bounds(r.drop_first(), depth + 1);
        } else if r[0] == ')' {
            if depth > 0 {
                lemma_word_len_bounds(r.drop_first(), (depth - 1) as nat);
            }
        } else {
            lemma_word_len_bounds(r.drop_first(), depth);
        }
    }
}

/// The tokens of the text `r`.
pub open spec fn lex_text(r: Seq<char>) -> Seq<Tok>
    decreases r.len(),
{
    if r.len() == 0 {
        Seq::empty()
    } else if r[0] == '(' {
        seq![Tok::Open] + lex_text(r.drop_first())
    } else if r[0] == ')' {
        seq![Tok::Close] + lex_text(r.drop_first())
    } else if separates(r[0]) {
        lex_text(r.drop_first())
    } else {
        let n = word_len(r, 0);
        proof {
            lemma_word_len_bounds(r, 0);
        }
        seq![Tok::Word(r.take(n as int))] + lex_text(r.skip(n as int))
    }
}

/// The depth of a word's own parentheses after scanning `w` from `depth`.
pub open spec fn depth_after(w: Seq<char>, depth: nat) -> nat
    decreases w.len(),
{
    if w.len() == 0 {
        depth
    } else if w[0] == '(' {
        depth_after(w.drop_first(), depth + 1)
    } else if w[0] == ')' && depth > 0 {
        depth_after(w.drop_first(), (depth - 1) as nat)
    } else {
        depth_after(w.drop_first(), depth)
    }
}

/// The text of one token.
pub open spec fn tok_text(t: Tok) -> Seq<char> {
    match t {
        Tok::Word(w) => w,
        Tok::Open => seq!['('],
        Tok::Close => seq![')'],
    }
}

/// The tokens `ts` written out, separated by single spaces.
pub open spec fn tokens_text(ts: Seq<Tok>) -> Seq<char>
    decreases ts.len(),
{
    if ts.len() == 0 {
        Seq::empty()
    } else if ts.len() == 1 {
        tok_text(ts[0])
    } else {
        tok_text(ts[0]) + (seq![' '] + tokens_text(ts.drop_first()))
    }
}

/// A word that is scanned to its end goes on into what follows it.
proof fn lemma_word_len_append(w: Seq<char>, u: Seq<char>, depth: nat)
    requires
        word_len(w, depth) == w.len(),
    ensures
        word_len(w + u, depth) == w.len() + word_len(u, depth_after(w, depth)),
    decreases w.len(),
{
    if w.len() == 0 {
        assert(w + u =~= u);
    } else {
        assert((w + u).drop_first() =~= w.drop_first() + u);
        assert((w + u)[0] == w[0]);
        if w[0] == '(' {
            lemma_word_len_append(w.drop_first(), u, depth + 1);
        } else if w[0] == ')' {
            lemma_word_len_append(w.drop_first(), u, (depth - 1) as nat);
        } else {
            lemma_word_len_append(w.drop_first(), u, depth);
        }
    }
}

/// The word that the scan finds is scanned to its end on its own.
proof fn lemma_word_len_take(r: Seq<char>, depth: nat)
    ensures
        word_len(r.take(word_len(r, depth) as int), depth) == word_len(r, depth),
        word_len(r, depth) < r.len() ==> depth_after(r.take(word_len(r, depth) as int), depth)
            == 0,
    decreases r.len(),
{
    lemma_word_len_bounds(r, depth);
    let n = word_len(r, depth);
    if n == 0 {
        assert(r.take(0) =~= Seq::<char>::empty());
    } else {
        let d2: nat = if r[0] == '(' {
            depth + 1
        } else if r[0] == ')' {
            (depth - 1) as nat
        } else {
            depth
        };
        lemma_word_len_take(r.drop_first(), d2);
        assert(r.take(n as int).drop_first() =~= r.drop_first().take(n - 1));
        assert(r.take(n as int)[0] == r[0]);
    }
}

proof fn lemma_lex_after_space(x: Seq<char>)
    ensures
        lex_text(seq![' '] + x) == lex_text(x),
{
    assert((seq![' '] + x).drop_first() =~= x);
}

proof fn lemma_tokens_text_cons(t: Tok, ts: Seq<Tok>)
    ensures
        tokens_text(seq![t] + ts) == if ts.len() == 0 {
            tok_text(t)
        } else {
            tok_text(t) + (seq![' '] + tokens_text(ts))
        },
{
    assert((seq![t] + ts).drop_first() =~= ts);
}

/// Lexing the tokens of a text once more, written out with single spaces
/// between them, gives the same tokens.
pub proof fn lemma_relex(r: Seq<char>)
    ensures
        lex_text(tokens_text(lex_text(r))) == lex_text(r),
    decreases r.len(),
{
    if r.len() == 0 {
    } else if r[0] == '(' || r[0] == ')' {
        let t = if r[0] == '(' {
            Tok::Open
        } else {
            Tok::Close
        };
        let rest = lex_text(r.drop_first());
        lemma_relex(r.drop_first());
        lemma_tokens_text_cons(t, rest);
        assert(lex_text(r) == seq![t] + rest);
        if rest.len() == 0 {
            assert(tok_text(t).drop_first() =~= Seq::<char>::empty());
            assert(lex_text(tok_text(t)) == seq![t] + lex_text(Seq::<char>::empty()));
            assert(lex_text(tok_text(t)) =~= seq![t] + rest);
        } else {
            let x = seq![' '] + tokens_text(rest);
            assert((tok_text(t) + x).drop_first() =~= x);
            assert((tok_text(t) + x)[0] == tok_text(t)[0]);
            lemma_lex_after_space(tokens_text(rest));
            assert(lex_text(tok_text(t) + x) == seq![t] + lex_text(x));
        }
    } else if separates(r[0]) {
        lemma_relex(r.drop_first());
    } else {
        let n = word_len(r, 0);
        lemma_word_len_bounds(r, 0);
        lemma_word_len_take(r, 0);
        let w = r.take(n as int);
        let rest = lex_text(r.skip(n as int));
        lemma_tokens_text_cons(Tok::Word(w), rest);
        assert(w[0] == r[0]);
        assert(lex_text(r) == seq![Tok::Word(w)] + rest);
        if rest.len() == 0 {
            assert(w.take(n as int) =~= w);
            assert(w.skip(n as int) =~= Seq::<char>::empty());
            assert(lex_text(w) == seq![Tok::Word(w)] + lex_text(Seq::<char>::empty()));
            assert(lex_text(w) =~= seq![Tok::Word(w)] + rest);
        } else {
            lemma_relex(r.skip(n as int));
            let x = seq![' '] + tokens_text(rest);
            lemma_word_len_append(w, x, 0);
            assert((w + x)[0] == w[0]);
            assert((w + x).take(n as int) =~= w);
            assert((w + x).skip(n as int) =~= x);
            lemma_lex_after_space(tokens_text(rest));
            assert(word_len(x, 0) == 0);
            assert(lex_text(w + x) == seq![Tok::Word(w)] + lex_text(x));
        }
    }
}

/// Whether no `)` and no separator stands in `w` at a point where all of the
/// word's own parentheses, counted from `depth`, are closed.
pub open spec fn closed_inside(w: Seq<char>, depth: nat) -> bool {
    forall|j: int|
        0 <= j < w.len() && #[trigger] depth_after(w.take(j), depth) == 0 ==> w[j] != ')'
            && !separates(w[j])
}

proof fn lemma_word_len_whole(w: Seq<char>, depth: nat)
    requires
        closed_inside(w, depth),
    ensures
        word_len(w, depth) == w.len(),
    decreases w.len(),
{
    if w.len() > 0 {
        let d2: nat = if w[0] == '(' {
            depth + 1
        } else if w[0] == ')' && depth > 0 {
            (depth - 1) as nat
        } else {
            depth
        };
        assert(w.take(0) =~= Seq::<char>::empty());
        assert(depth_after(w.take(0), depth) == depth);
        let v = w.drop_first();
        assert forall|j: int|
            0 <= j < v.len() && #[trigger] depth_after(v.take(j), d2) == 0 implies v[j] != ')'
                && !separates(v[j]) by {
            assert(w.take(j + 1).drop_first() =~= v.take(j));
            assert(w.take(j + 1)[0] == w[0]);
            assert(depth_after(w.take(j + 1), depth) == depth_after(v.take(j), d2));
        }
        lemma_word_len_whole(v, d2);
    }
}

/// A text that starts a word, and in which no `)` and no separator stands
/// where its own parentheses are all closed, lexes as that one word, though
/// it may hold parentheses, commas and separators inside them
/// (`var(--x, red)`).
pub proof fn lemma_one_word(w: Seq<char>)
    requires
        w.len() > 0,
        starts_word(w[0]),
        closed_inside(w, 0),
    ensures
        lex_text(w) == seq![Tok::Word(w)],
{
    lemma_word_len_whole(w, 0);
    assert(w.take(w.len() as int) =~= w);
    assert(w.skip(w.len() as int) =~= Seq::<char>::empty());
    assert(lex_text(w) =~= seq![Tok::Word(w)] + lex_text(Seq::<char>::empty()));
}

/// Whether `c` separates words.
fn is_separator(c: char) -> (r: bool)
    ensures
        r == separates(c),
{
    c == ' ' || is_whitespace(c)
}

/// Scans one word that starts at `start`; returns it and the position after it.
fn lex_string(chars: &Vec<char>, start: usize) -> (r: (String, usize))
    requires
        start < chars@.len(),
        starts_word(chars@[start as int]),
    ensures
        start < r.1 <= chars@.len(),
        r.1 == start + word_len(chars@.skip(start as int), 0),
        r.0@ == chars@.subrange(start as int, r.1 as int),
{
    let mut string = String::new();
    let mut depth: usize = 0;
    let mut i: usize = start;
    proof {
        lemma_word_len_bounds(chars@.skip(start as int), 0);
    }
    while i < chars.len()
        invariant_except_break
            (i - start) + word_len(chars@.skip(i as int), depth as nat) == word_len(
                chars@.skip(start as int),
                0,
            ),
        invariant
            start <= i <= chars@.len(),
            depth <= i - start,
            string@ == chars@.subrange(start as int, i as int),
        ensures
            start <= i <= chars@.len(),
            string@ == chars@.subrange(start as int, i as int),
            i == start + word_len(chars@.skip(start as int), 0),
        decreases chars@.len() - i,
    {
        let c = chars[i];
        assert(chars@.skip(i as int).drop_first() =~= chars@.skip(i + 1));
        if c == '(' {
            depth = depth + 1;
        } else if c == ')' {
            if depth > 0 {
                depth = depth - 1;
            } else {
                break;
            }
        } else if depth == 0 && is_separator(c) {
            break;
        }
        push_char(&mut string, c);
        i = i + 1;
        assert(string@ =~= chars@.subrange(start as int, i as int));
    }
    (string, i)
}

/// Splits `input` into words and grouping parentheses. A word is a maximal
/// run of characters other than whitespace and grouping parentheses; a
/// parenthesis opened inside a word belongs to it until it is closed, so
/// `var(--x, red)` is one word. This scan never fails.
pub fn lex(input: String) -> (r: Result<Vec<Token>, String>)
    ensures
        r is Ok,
        toks(r->Ok_0@) == lex_text(input@),
{
    let chars = chars_of(input.as_str());
    let mut tokens: Vec<Token> = Vec::new();
    let mut i: usize = 0;
    assert(chars@.skip(0) =~= chars@);
    while i < chars.len()
        invariant
            i <= chars@.len(),
            chars@ == input@,
            toks(tokens@) + lex_text(chars@.skip(i as int)) == lex_text(input@),
        decreases chars@.len() - i,
    {
        let c = chars[i];
        let ghost before = tokens@;
        let ghost rest = chars@.skip(i as int);
        assert(rest.drop_first() =~= chars@.skip(i + 1));
        if c == '(' {
            tokens.push(Token::LParen);
            i = i + 1;
        } else if c == ')' {
            tokens.push(Token::RParen);
            i = i + 1;
        } else if is_separator(c) {
            i = i + 1;
        } else {
            let (word, e) = lex_string(&chars, i);
            assert(rest.take(e - i) =~= word@);
            assert(rest.skip(e - i) =~= chars@.skip(e as int));
            tokens.push(Token::String(word));
            i = e;
        }
        assert(toks(tokens@) + lex_text(chars@.skip(i as int)) =~= lex_text(input@)) by {
            if tokens@.len() > before.len() {
                assert(toks(tokens@) =~= toks(before).push(tokens@.last()@));
            }
        }
    }
    assert(chars@.skip(i as int) =~= Seq::<char>::empty());
    Ok(tokens)
}

} // verus!
