use vstd::prelude::*;
use vstd::seq_lib::lemma_flatten_concat;
use vstd::string::StringExecFns;

use crate::parse::words_view;
use crate::text::{chars_of, push_char};
use crate::tree::{lemma_views_of_index, views_of, NodeV, RuleV, SExpr};

verus! {

/// `ps` joined with `sep` between each two of them.
pub open spec fn join(ps: Seq<Seq<char>>, sep: Seq<char>) -> Seq<char>
    decreases ps.len(),
{
    if ps.len() == 0 {
        Seq::empty()
    } else if ps.len() == 1 {
        ps[0]
    } else {
        join(ps.drop_last(), sep) + sep + ps.last()
    }
}

/// The scan that cuts `s` after each comma, over its first `n` characters:
/// the pieces already cut, and the piece being read.
pub open spec fn comma_scan(s: Seq<char>, n: nat) -> (Seq<Seq<char>>, Seq<char>)
    decreases n,
{
    if n == 0 {
        (Seq::empty(), Seq::empty())
    } else {
        let (done, cur) = comma_scan(s, (n - 1) as nat);
        let c = s[n - 1];
        if c == ',' {
            (done.push(cur.push(c)), Seq::empty())
        } else {
            (done, cur.push(c))
        }
    }
}

/// The pieces of `s` cut after each comma, each keeping its comma; the last
/// piece is kept where it is not empty.
pub open spec fn comma_pieces(s: Seq<char>) -> Seq<Seq<char>> {
    let (done, cur) = comma_scan(s, s.len());
    if cur.len() == 0 {
        done
    } else {
        done.push(cur)
    }
}

/// The selector lines of `sel` under the ancestor selector `parent`: one
/// line per comma piece, each after `parent` and a space.
pub open spec fn selector_text(sel: Seq<char>, parent: Seq<char>) -> Seq<char> {
    join(comma_pieces(sel).map_values(|p: Seq<char>| parent + " "@ + p), "\n"@)
}

/// The line of one rule.
pub open spec fn rule_line(r: RuleV) -> Seq<char> {
    "    "@ + r.property + ": "@ + join(r.value, " "@) + ";"@
}

/// The lines of the rules, one per rule.
pub open spec fn rules_text(rs: Seq<RuleV>) -> Seq<char> {
    join(rs.map_values(|r: RuleV| rule_line(r)), "\n"@)
}

/// The CSS text of node `n` under the ancestor selector `parent`: its block,
/// where it has rules, followed by the text of its children, which have its
/// own selector lines as their ancestor selector.
pub open spec fn render(n: NodeV, parent: Seq<char>) -> Seq<char>
    decreases n,
{
    let sel = selector_text(n.selector, parent);
    if n.rules.len() == 0 {
        render_all(n.children, sel)
    } else {
        sel + " {\n"@ + rules_text(n.rules) + "\n}\n"@ + render_all(n.children, sel)
    }
}

/// The CSS texts of the nodes `cs`, one after another.
pub open spec fn render_all(cs: Seq<NodeV>, parent: Seq<char>) -> Seq<char>
    decreases cs,
{
    if cs.len() == 0 {
        Seq::empty()
    } else {
        render_all(cs.drop_last(), parent) + render(cs.last(), parent)
    }
}

/// The blocks of node `n` and of its descendants, in order, under the
/// ancestor selector `parent`: one block for each of these nodes that has
/// rules.
pub open spec fn blocks(n: NodeV, parent: Seq<char>) -> Seq<Seq<char>>
    decreases n,
{
    let sel = selector_text(n.selector, parent);
    let own = if n.rules.len() == 0 {
        Seq::empty()
    } else {
        seq![sel + " {\n"@ + rules_text(n.rules) + "\n}\n"@]
    };
    own + blocks_all(n.children, sel)
}

/// The blocks of the nodes `cs` and of their descendants, in order.
pub open spec fn blocks_all(cs: Seq<NodeV>, parent: Seq<char>) -> Seq<Seq<char>>
    decreases cs,
{
    if cs.len() == 0 {
        Seq::empty()
    } else {
        blocks_all(cs.drop_last(), parent) + blocks(cs.last(), parent)
    }
}

/// How many of `n` and its descendants have at least one rule.
pub open spec fn ruled(n: NodeV) -> nat
    decreases n,
{
    (if n.rules.len() > 0 {
        1nat
    } else {
        0nat
    }) + ruled_all(n.children)
}

/// How many of the nodes `cs` and their descendants have at least one rule.
pub open spec fn ruled_all(cs: Seq<NodeV>) -> nat
    decreases cs,
{
    if cs.len() == 0 {
        0
    } else {
        ruled_all(cs.drop_last()) + ruled(cs.last())
    }
}

/// The text of a node is its blocks one after another, and it has as many
/// blocks as it has nodes with rules, at any depth; a node without rules
/// adds no block of its own.
pub proof fn lemma_blocks(n: NodeV, parent: Seq<char>)
    ensures
        render(n, parent) == blocks(n, parent).flatten(),
        blocks(n, parent).len() == ruled(n),
    decreases n,
{
    let sel = selector_text(n.selector, parent);
    lemma_blocks_all(n.children, sel);
    let own: Seq<Seq<char>> = if n.rules.len() == 0 {
        Seq::empty()
    } else {
        seq![sel + " {\n"@ + rules_text(n.rules) + "\n}\n"@]
    };
    lemma_flatten_concat(own, blocks_all(n.children, sel));
    if n.rules.len() == 0 {
        assert(own.flatten() =~= Seq::<char>::empty());
    } else {
        own.lemma_flatten_one_element();
    }
    assert(render(n, parent) =~= own.flatten() + blocks_all(n.children, sel).flatten());
}

/// The text of a sequence of nodes is their blocks one after another, one
/// block for each node with rules among them and their descendants.
pub proof fn lemma_blocks_all(cs: Seq<NodeV>, parent: Seq<char>)
    ensures
        render_all(cs, parent) == blocks_all(cs, parent).flatten(),
        blocks_all(cs, parent).len() == ruled_all(cs),
    decreases cs,
{
    if cs.len() > 0 {
        lemma_blocks_all(cs.drop_last(), parent);
        lemma_blocks(cs.last(), parent);
        lemma_flatten_concat(blocks_all(cs.drop_last(), parent), blocks(cs.last(), parent));
    }
}

/// Whether `p` is a comma piece: not empty, with no comma but maybe its last
/// character.
pub open spec fn comma_piece(p: Seq<char>) -> bool {
    p.len() > 0 && forall|j: int| 0 <= j < p.len() - 1 ==> p[j] != ','
}

proof fn lemma_comma_scan(s: Seq<char>, n: nat)
    requires
        n <= s.len(),
    ensures
        comma_scan(s, n).0.flatten() + comma_scan(s, n).1 == s.take(n as int),
        forall|k: int|
            0 <= k < comma_scan(s, n).0.len() ==> comma_piece(#[trigger] comma_scan(s, n).0[k])
                && comma_scan(s, n).0[k].last() == ',',
        forall|j: int| 0 <= j < comma_scan(s, n).1.len() ==> comma_scan(s, n).1[j] != ',',
    decreases n,
{
    if n == 0 {
        assert(s.take(0) =~= Seq::<char>::empty());
    } else {
        let m = (n - 1) as nat;
        lemma_comma_scan(s, m);
        let (done, cur) = comma_scan(s, m);
        let c = s[m as int];
        assert(s.take(n as int) =~= s.take(m as int).push(c));
        if c == ',' {
            done.lemma_flatten_push(cur.push(c));
            assert(done.flatten() + cur.push(c) =~= (done.flatten() + cur).push(c));
            assert(comma_scan(s, n).0 == done.push(cur.push(c)));
            assert forall|k: int|
                0 <= k < comma_scan(s, n).0.len() implies comma_piece(
                #[trigger] comma_scan(s, n).0[k],
            ) && comma_scan(s, n).0[k].last() == ',' by {
                if k == done.len() {
                    assert(comma_scan(s, n).0[k] == cur.push(c));
                } else {
                    assert(comma_scan(s, n).0[k] == done[k]);
                }
            }
            assert(comma_scan(s, n).0.flatten() + comma_scan(s, n).1 =~= s.take(n as int));
        } else {
            assert(done.flatten() + cur.push(c) =~= (done.flatten() + cur).push(c));
        }
    }
}

/// The comma pieces of a selector, one after another, give the selector
/// back; each piece but the last ends with its comma, and no piece holds a
/// comma before its end. The selector lines are one line per piece, each
/// after the ancestor selector and a space.
pub proof fn lemma_comma_pieces(sel: Seq<char>, parent: Seq<char>)
    ensures
        comma_pieces(sel).flatten() == sel,
        forall|k: int| 0 <= k < comma_pieces(sel).len() ==> comma_piece(#[trigger] comma_pieces(sel)[k]),
        forall|k: int|
            0 <= k < comma_pieces(sel).len() - 1 ==> (#[trigger] comma_pieces(sel)[k]).last()
                == ',',
        selector_text(sel, parent) == join(
            Seq::new(comma_pieces(sel).len(), |k: int| parent + " "@ + comma_pieces(sel)[k]),
            "\n"@,
        ),
{
    lemma_comma_scan(sel, sel.len());
    let (done, cur) = comma_scan(sel, sel.len());
    assert(sel.take(sel.len() as int) =~= sel);
    if cur.len() == 0 {
        assert(done.flatten() + cur =~= done.flatten());
    } else {
        done.lemma_flatten_push(cur);
        assert forall|k: int| 0 <= k < comma_pieces(sel).len() implies comma_piece(
            #[trigger] comma_pieces(sel)[k],
        ) by {
            if k < done.len() {
                assert(comma_pieces(sel)[k] == done[k]);
            } else {
                assert(comma_pieces(sel)[k] == cur);
            }
        }
        assert forall|k: int| 0 <= k < comma_pieces(sel).len() - 1 implies (
        #[trigger] comma_pieces(sel)[k]).last() == ',' by {
            assert(comma_pieces(sel)[k] == done[k]);
        }
    }
    assert(comma_pieces(sel).map_values(|p: Seq<char>| parent + " "@ + p) =~= Seq::new(
        comma_pieces(sel).len(),
        |k: int| parent + " "@ + comma_pieces(sel)[k],
    ));
}

proof fn lemma_join_step(ps: Seq<Seq<char>>, sep: Seq<char>, i: int)
    requires
        0 <= i < ps.len(),
    ensures
        join(ps.take(i + 1), sep) == if i == 0 {
            ps[0]
        } else {
            join(ps.take(i), sep) + sep + ps[i]
        },
{
    assert(ps.take(i + 1).drop_last() =~= ps.take(i));
}

/// The pieces of `sel` cut after each comma.
fn split_commas(sel: &str) -> (r: Vec<String>)
    ensures
        words_view(r@) == comma_pieces(sel@),
{
    let chars = chars_of(sel);
    let mut pieces: Vec<String> = Vec::new();
    let mut cur = String::new();
    let mut i: usize = 0;
    while i < chars.len()
        invariant
            chars@ == sel@,
            i <= chars@.len(),
            (words_view(pieces@), cur@) == comma_scan(sel@, i as nat),
        decreases chars@.len() - i,
    {
        let c = chars[i];
        push_char(&mut cur, c);
        if c == ',' {
            let ghost before = pieces@;
            pieces.push(cur);
            assert(words_view(pieces@) =~= words_view(before).push(pieces@.last()@));
            cur = String::new();
        }
        i = i + 1;
    }
    if !cur.as_str().is_empty() {
        let ghost before = pieces@;
        pieces.push(cur);
        assert(words_view(pieces@) =~= words_view(before).push(pieces@.last()@));
    }
    pieces
}

/// The selector lines of `sel` under the ancestor selector `parent`.
fn selector_lines(sel: &str, parent: &str) -> (r: String)
    ensures
        r@ == selector_text(sel@, parent@),
{
    let pieces = split_commas(sel);
    let ghost lines = comma_pieces(sel@).map_values(|p: Seq<char>| parent@ + " "@ + p);
    let mut out = String::new();
    let mut i: usize = 0;
    while i < pieces.len()
        invariant
            i <= pieces@.len(),
            words_view(pieces@) == comma_pieces(sel@),
            lines == comma_pieces(sel@).map_values(|p: Seq<char>| parent@ + " "@ + p),
            out@ == join(lines.take(i as int), "\n"@),
        decreases pieces@.len() - i,
    {
        proof {
            lemma_join_step(lines, "\n"@, i as int);
        }
        assert(pieces@[i as int]@ == comma_pieces(sel@)[i as int]);
        if i > 0 {
            out.append("\n");
        }
        out.append(parent);
        out.append(" ");
        out.append(pieces[i].as_str());
        i = i + 1;
    }
    assert(lines.take(i as int) =~= lines);
    out
}

/// The line of one rule.
fn rule_text(property: &str, value: &Vec<String>) -> (r: String)
    ensures
        r@ == rule_line(RuleV { property: property@, value: words_view(value@) }),
{
    let ghost ws = words_view(value@);
    let mut joined = String::new();
    let mut i: usize = 0;
    while i < value.len()
        invariant
            i <= value@.len(),
            ws == words_view(value@),
            joined@ == join(ws.take(i as int), " "@),
        decreases value@.len() - i,
    {
        proof {
            lemma_join_step(ws, " "@, i as int);
        }
        if i > 0 {
            joined.append(" ");
        }
        joined.append(value[i].as_str());
        i = i + 1;
    }
    assert(ws.take(i as int) =~= ws);
    let mut out = String::new();
    out.append("    ");
    out.append(property);
    out.append(": ");
    out.append(joined.as_str());
    out.append(";");
    out
}

impl SExpr {
    /// The CSS text of this node and of its descendants, with `parent` as
    /// the ancestor selector of this node.
    pub fn to_stylesheet(&self, parent: &str) -> (r: String)
        ensures
            r@ == render(self@, parent@),
        decreases self,
    {
        let selector = selector_lines(self.selector.0.as_str(), parent);
        let ghost rs = self@.rules;
        let mut rules = String::new();
        let mut i: usize = 0;
        while i < self.rules.len()
            invariant
                i <= self.rules@.len(),
                rs == self@.rules,
                rules@ == join(rs.map_values(|r: RuleV| rule_line(r)).take(i as int), "\n"@),
            decreases self.rules@.len() - i,
        {
            proof {
                lemma_join_step(rs.map_values(|r: RuleV| rule_line(r)), "\n"@, i as int);
            }
            if i > 0 {
                rules.append("\n");
            }
            let line = rule_text(self.rules[i].property.as_str(), &self.rules[i].value);
            rules.append(line.as_str());
            i = i + 1;
        }
        assert(rs.map_values(|r: RuleV| rule_line(r)).take(i as int) =~= rs.map_values(
            |r: RuleV| rule_line(r),
        ));
        let ghost cs = self@.children;
        proof {
            lemma_views_of_index(self.children@);
        }
        let mut children = String::new();
        let mut j: usize = 0;
        while j < self.children.len()
            invariant
                j <= self.children@.len(),
                cs == self@.children,
                cs == views_of(self.children@),
                cs.len() == self.children@.len(),
                forall|k: int| 0 <= k < cs.len() ==> #[trigger] cs[k] == self.children@[k]@,
                children@ == render_all(cs.take(j as int), selector@),
            decreases self.children@.len() - j,
        {
            let text = self.children[j].to_stylesheet(selector.as_str());
            assert(cs.take(j + 1).drop_last() =~= cs.take(j as int));
            children.append(text.as_str());
            j = j + 1;
        }
        assert(cs.take(j as int) =~= cs);
        if self.rules.len() == 0 {
            children
        } else {
            let mut out = selector;
            out.append(" {\n");
            out.append(rules.as_str());
            out.append("\n}\n");
            out.append(children.as_str());
            out
        }
    }
}

} // verus!
