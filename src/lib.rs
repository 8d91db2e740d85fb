//! Compiles nested, parenthesised style rules into CSS text: `lex` splits the
//! text into tokens, `parse` builds one tree per top-level group, and
//! `SExpr::to_stylesheet` renders a tree with its descendants.
use vstd::prelude::*;

pub mod lex;
pub mod parse;
pub mod render;
pub mod text;
pub mod tree;

pub use lex::{lex, Token};
pub use parse::parse;
pub use tree::{Rule, SExpr, Selector};

use lex::lex_text;
use parse::{closes_unopened, parse_tokens};
use render::{blocks_all, lemma_blocks_all, render_all, ruled_all};
use tree::{lemma_views_of_index, views_of};

verus! {

/// The CSS text of the document `text`.
pub open spec fn stylesheet(text: Seq<char>) -> Seq<char> {
    render_all(parse_tokens(lex_text(text)), Seq::empty())
}

/// The CSS text of a document is one block after another, one block for
/// each node, at any depth, that has at least one rule.
pub proof fn lemma_stylesheet_blocks(text: Seq<char>)
    ensures
        stylesheet(text) == blocks_all(parse_tokens(lex_text(text)), Seq::empty()).flatten(),
        blocks_all(parse_tokens(lex_text(text)), Seq::empty()).len() == ruled_all(
            parse_tokens(lex_text(text)),
        ),
{
    lemma_blocks_all(parse_tokens(lex_text(text)), Seq::empty());
}

/// Compiles the document `input` into CSS text: every top-level group is
/// rendered in order, with no ancestor selector. A `)` that closes no `(` is
/// an error.
pub fn string_to_stylesheet(input: String) -> (r: Result<String, String>)
    ensures
        r is Err <==> closes_unopened(lex_text(input@)),
        r is Ok ==> r->Ok_0@ == stylesheet(input@),
{
    let ghost text = input@;
    let tokens = match lex(input) {
        Ok(tokens) => tokens,
        Err(e) => {
            return Err(e);
        },
    };
    let s_exprs = match parse(tokens) {
        Ok(s_exprs) => s_exprs,
        Err(e) => {
            return Err(e);
        },
    };
    let ghost nodes = views_of(s_exprs@);
    proof {
        lemma_views_of_index(s_exprs@);
    }
    let mut string = String::new();
    let mut i: usize = 0;
    while i < s_exprs.len()
        invariant
            i <= s_exprs@.len(),
            nodes == views_of(s_exprs@),
            nodes.len() == s_exprs@.len(),
            forall|k: int| 0 <= k < nodes.len() ==> #[trigger] nodes[k] == s_exprs@[k]@,
            string@ == render_all(nodes.take(i as int), Seq::empty()),
        decreases s_exprs@.len() - i,
    {
        let css = s_exprs[i].to_stylesheet("");
        assert(nodes.take(i + 1).drop_last() =~= nodes.take(i as int));
        assert(""@ =~= Seq::<char>::empty()) by {
            reveal_strlit("");
        }
        string.append(css.as_str());
        i = i + 1;
    }
    assert(nodes.take(i as int) =~= nodes);
    Ok(string)
}

} // verus!
