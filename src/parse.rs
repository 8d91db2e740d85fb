use vstd::prelude::*;

use crate::lex::{toks, Tok, Token};
use crate::render::{join, rule_line};
use crate::tree::{lemma_views_of_push, views_of, NodeV, Rule, RuleV, SExpr, Selector};

verus! {

/// The words from position `j` up to the first token that is not a word,
/// and the position after that token (which is consumed), or the end.
pub open spec fn words_from(ts: Seq<Tok>, j: nat) -> (Seq<Seq<char>>, nat)
    decreases ts.len() - j,
{
    if j >= ts.len() {
        (Seq::empty(), j)
    } else {
        match ts[j as int] {
            Tok::Word(w) => {
                let rest = words_from(ts, j + 1);
                (seq![w] + rest.0, rest.1)
            },
            _ => (Seq::empty(), j + 1),
        }
    }
}

/// The rule whose property word stands at position `i`, and the position
/// after it. Its value is the next word, or the words of a parenthesised
/// list; an empty list, a missing value or a `)` in its place makes the rule
/// malformed.
pub open spec fn parse_rule_at(ts: Seq<Tok>, i: nat) -> Option<(RuleV, nat)> {
    if i + 1 >= ts.len() {
        None
    } else {
        match (ts[i as int], ts[i + 1int]) {
            (Tok::Word(p), Tok::Word(v)) => Some((RuleV { property: p, value: seq![v] }, i + 2)),
            (Tok::Word(p), Tok::Open) => {
                let (vs, e) = words_from(ts, i + 2);
                if vs.len() == 0 {
                    None
                } else {
                    Some((RuleV { property: p, value: vs }, e))
                }
            },
            _ => None,
        }
    }
}

/// The node whose selector word stands at position `i`, and the position
/// after it; `None` where it is malformed.
pub open spec fn parse_node(ts: Seq<Tok>, i: nat) -> Option<(NodeV, nat)>
    decreases ts.len() - i, 1nat,
{
    if i >= ts.len() {
        None
    } else {
        match ts[i as int] {
            Tok::Word(sel) => parse_body(
                ts,
                i + 1,
                NodeV { selector: sel, rules: Seq::empty(), children: Seq::empty() },
            ),
            _ => None,
        }
    }
}

/// Continues the body of the node `acc` at position `j`: rules and nested
/// nodes follow one another until a `)` (consumed) or the end. Positions only
/// move forward; the test on them keeps the definition well-founded.
pub open spec fn parse_body(ts: Seq<Tok>, j: nat, acc: NodeV) -> Option<(NodeV, nat)>
    decreases ts.len() - j, 0nat,
{
    if j >= ts.len() {
        Some((acc, j))
    } else {
        match ts[j as int] {
            Tok::Word(_) => match parse_rule_at(ts, j) {
                Some((r, k)) => if j < k <= ts.len() {
                    parse_body(
                        ts,
                        k,
                        NodeV { selector: acc.selector, rules: acc.rules.push(r), children: acc.children },
                    )
                } else {
                    None
                },
                None => None,
            },
            Tok::Open => match parse_node(ts, j + 1) {
                Some((c, k)) => if j < k <= ts.len() {
                    parse_body(
                        ts,
                        k,
                        NodeV { selector: acc.selector, rules: acc.rules, children: acc.children.push(c) },
                    )
                } else {
                    None
                },
                None => None,
            },
            Tok::Close => Some((acc, j + 1)),
        }
    }
}

pub open spec fn rules_view(rs: Seq<Rule>) -> Seq<RuleV> {
    rs.map_values(|r: Rule| r@)
}

pub open spec fn words_view(ws: Seq<String>) -> Seq<Seq<char>> {
    ws.map_values(|s: String| s@)
}

proof fn lemma_words_from(ts: Seq<Tok>, j: nat)
    requires
        j <= ts.len(),
    ensures
        j + words_from(ts, j).0.len() <= ts.len(),
        forall|m: int|
            0 <= m < words_from(ts, j).0.len() ==> ts[j + m] == Tok::Word(
                #[trigger] words_from(ts, j).0[m],
            ),
    decreases ts.len() - j,
{
    if j < ts.len() {
        if let Tok::Word(w) = ts[j as int] {
            lemma_words_from(ts, j + 1);
            let rest = words_from(ts, j + 1).0;
            assert forall|m: int|
                0 <= m < words_from(ts, j).0.len() implies ts[j + m] == Tok::Word(
                #[trigger] words_from(ts, j).0[m],
            ) by {
                if m > 0 {
                    assert(words_from(ts, j).0[m] == rest[m - 1]);
                }
            }
        }
    }
}

/// A rule's value is exactly the words that were written for it: the one
/// word after the property, or the words of the parenthesised list after
/// it, in order; either way there is at least one. Its line shows them
/// joined by single spaces.
pub proof fn lemma_rule_value(ts: Seq<Tok>, i: nat)
    requires
        parse_rule_at(ts, i) is Some,
    ensures
        ({
            let (r, _) = parse_rule_at(ts, i)->0;
            &&& r.value.len() >= 1
            &&& ts[i as int] == Tok::Word(r.property)
            &&& ts[i + 1int] is Word ==> r.value == seq![ts[i + 1int]->Word_0]
            &&& ts[i + 1int] is Open ==> forall|m: int|
                0 <= m < r.value.len() ==> ts[i + 2 + m] == Tok::Word(#[trigger] r.value[m])
            &&& rule_line(r) == "    "@ + r.property + ": "@ + join(r.value, " "@) + ";"@
        }),
{
    if ts[i + 1int] is Open {
        lemma_words_from(ts, i + 2);
    }
}

/// Parses the rule whose property word stands at `i`, among the tokens
/// before `end`.
fn parse_rule(tokens: &Vec<Token>, end: usize, i: usize) -> (r: Option<(Rule, usize)>)
    requires
        end <= tokens@.len(),
        i < end,
    ensures
        match r {
            Some((rule, k)) => parse_rule_at(toks(tokens@).take(end as int), i as nat) == Some(
                (rule@, k as nat),
            ) && i < k <= end,
            None => parse_rule_at(toks(tokens@).take(end as int), i as nat) is None,
        },
{
    let ghost ts = toks(tokens@).take(end as int);
    let property = match &tokens[i] {
        Token::String(s) => s.clone(),
        _ => {
            return None;
        },
    };
    if i + 1 >= end {
        return None;
    }
    match &tokens[i + 1] {
        Token::String(v) => {
            let mut value: Vec<String> = Vec::new();
            value.push(v.clone());
            let rule = Rule { property, value };
            assert(rule@.value =~= seq![v@]);
            Some((rule, i + 2))
        },
        Token::LParen => {
            let mut value: Vec<String> = Vec::new();
            let mut j: usize = i + 2;
            while j < end
                invariant_except_break
                    words_view(value@) + words_from(ts, j as nat).0 == words_from(
                        ts,
                        (i + 2) as nat,
                    ).0,
                    words_from(ts, j as nat).1 == words_from(ts, (i + 2) as nat).1,
                invariant
                    i + 2 <= j <= end,
                    end <= tokens@.len(),
                    ts == toks(tokens@).take(end as int),
                ensures
                    i + 2 <= j <= end,
                    words_view(value@) == words_from(ts, (i + 2) as nat).0,
                    j == words_from(ts, (i + 2) as nat).1,
                decreases end - j,
            {
                match &tokens[j] {
                    Token::String(w) => {
                        let ghost before = value@;
                        value.push(w.clone());
                        assert(words_view(value@) =~= words_view(before).push(w@));
                        assert(words_view(value@) + words_from(ts, (j + 1) as nat).0
                            =~= words_view(before) + words_from(ts, j as nat).0);
                        j = j + 1;
                    },
                    _ => {
                        j = j + 1;
                        assert(words_view(value@) =~= words_view(value@) + words_from(
                            ts,
                            (j - 1) as nat,
                        ).0);
                        break;
                    },
                }
            }
            if value.len() == 0 {
                return None;
            }
            Some((Rule { property, value }, j))
        },
        Token::RParen => None,
    }
}

/// Parses the node whose selector word stands at `i`, among the tokens
/// before `end`; returns it and the position after it.
fn parse_s_expr(tokens: &Vec<Token>, end: usize, i: usize) -> (r: Option<(SExpr, usize)>)
    requires
        end <= tokens@.len(),
        i <= end,
    ensures
        match r {
            Some((node, k)) => parse_node(toks(tokens@).take(end as int), i as nat) == Some(
                (node@, k as nat),
            ) && i < k <= end,
            None => parse_node(toks(tokens@).take(end as int), i as nat) is None,
        },
    decreases end - i,
{
    let ghost ts = toks(tokens@).take(end as int);
    if i >= end {
        return None;
    }
    let selector = match &tokens[i] {
        Token::String(s) => Selector(s.clone()),
        _ => {
            return None;
        },
    };
    let mut rules: Vec<Rule> = Vec::new();
    let mut children: Vec<SExpr> = Vec::new();
    let mut j: usize = i + 1;
    assert(rules_view(rules@) =~= Seq::empty());
    assert(views_of(children@) =~= Seq::empty());
    while j < end
        invariant_except_break
            parse_body(
                ts,
                j as nat,
                NodeV {
                    selector: selector.0@,
                    rules: rules_view(rules@),
                    children: views_of(children@),
                },
            ) == parse_node(ts, i as nat),
        invariant
            i < j <= end,
            end <= tokens@.len(),
            ts == toks(tokens@).take(end as int),
        ensures
            i < j <= end,
            parse_node(ts, i as nat) == Some(
                (
                    NodeV {
                        selector: selector.0@,
                        rules: rules_view(rules@),
                        children: views_of(children@),
                    },
                    j as nat,
                ),
            ),
        decreases end - j,
    {
        match &tokens[j] {
            Token::String(_) => {
                match parse_rule(tokens, end, j) {
                    Some((rule, k)) => {
                        let ghost before = rules@;
                        rules.push(rule);
                        assert(rules_view(rules@) =~= rules_view(before).push(rules@.last()@));
                        j = k;
                    },
                    None => {
                        return None;
                    },
                }
            },
            Token::LParen => {
                match parse_s_expr(tokens, end, j + 1) {
                    Some((child, k)) => {
                        proof {
                            lemma_views_of_push(children@, child);
                        }
                        children.push(child);
                        j = k;
                    },
                    None => {
                        return None;
                    },
                }
            },
            Token::RParen => {
                j = j + 1;
                break;
            },
        }
    }
    Some((SExpr { selector, rules, children }, j))
}


/// The state of the top-level scan: the nodes found so far, where the
/// current group began, how many of its parentheses are open, and whether a
/// `)` has closed nothing.
pub struct Scan {
    pub nodes: Seq<NodeV>,
    pub left: nat,
    pub depth: nat,
    pub failed: bool,
}

/// One step of the top-level scan, over the token at position `k`. A group
/// that closes is parsed from after its `(` up to its `)`; a malformed group
/// is dropped, as is a word outside any group.
pub open spec fn scan_step(st: Scan, ts: Seq<Tok>, k: nat) -> Scan {
    if st.failed {
        st
    } else {
        match ts[k as int] {
            Tok::Open => Scan { depth: st.depth + 1, ..st },
            Tok::Close => if st.depth == 0 {
                Scan { failed: true, ..st }
            } else if st.depth == 1 {
                Scan {
                    nodes: match parse_node(ts.take(k as int), st.left + 1) {
                        Some((n, _)) => st.nodes.push(n),
                        None => st.nodes,
                    },
                    left: k + 1,
                    depth: 0,
                    failed: false,
                }
            } else {
                Scan { depth: (st.depth - 1) as nat, ..st }
            },
            Tok::Word(_) => if st.depth == 0 {
                Scan { left: k + 1, ..st }
            } else {
                st
            },
        }
    }
}

/// The top-level scan over the first `n` tokens.
pub open spec fn scan(ts: Seq<Tok>, n: nat) -> Scan
    decreases n,
{
    if n == 0 {
        Scan { nodes: Seq::empty(), left: 0, depth: 0, failed: false }
    } else {
        scan_step(scan(ts, (n - 1) as nat), ts, (n - 1) as nat)
    }
}

/// The nodes of the top-level groups of `ts`.
pub open spec fn parse_tokens(ts: Seq<Tok>) -> Seq<NodeV> {
    scan(ts, ts.len()).nodes
}

/// The number of `(` less the number of `)` in `ts`.
pub open spec fn balance(ts: Seq<Tok>) -> int
    decreases ts.len(),
{
    if ts.len() == 0 {
        0
    } else {
        balance(ts.drop_last()) + match ts.last() {
            Tok::Open => 1int,
            Tok::Close => -1int,
            Tok::Word(_) => 0int,
        }
    }
}

/// Whether some `)` in `ts` closes no `(`.
pub open spec fn closes_unopened(ts: Seq<Tok>) -> bool {
    exists|k: int| 0 < k <= ts.len() && #[trigger] balance(ts.take(k)) < 0
}

/// The scan fails exactly where a prefix holds more `)` than `(`; until
/// then its depth is the balance of the prefix.
pub proof fn lemma_scan_balance(ts: Seq<Tok>, n: nat)
    requires
        n <= ts.len(),
    ensures
        scan(ts, n).failed <==> exists|k: int| 0 < k <= n && #[trigger] balance(ts.take(k)) < 0,
        !scan(ts, n).failed ==> scan(ts, n).depth == balance(ts.take(n as int)),
    decreases n,
{
    if n == 0 {
        assert(balance(ts.take(0)) == 0) by {
            assert(ts.take(0).len() == 0);
        }
    } else {
        let m = (n - 1) as nat;
        lemma_scan_balance(ts, m);
        assert(ts.take(n as int).drop_last() =~= ts.take(m as int));
        assert(ts.take(n as int).last() == ts[m as int]);
        if scan(ts, m).failed {
            let k = choose|k: int| 0 < k <= m && #[trigger] balance(ts.take(k)) < 0;
            assert(0 < k <= n && balance(ts.take(k)) < 0);
        } else if scan(ts, n).failed {
            assert(balance(ts.take(n as int)) < 0);
        } else {
            assert forall|k: int| 0 < k <= n implies #[trigger] balance(ts.take(k)) >= 0 by {
                if k < n {
                    assert(!(balance(ts.take(k)) < 0));
                }
            }
        }
    }
}

/// Splits `tokens` into top-level groups and parses each one. A group whose
/// contents are malformed, and a word outside any group, are dropped; a group
/// left open at the end yields nothing. A `)` that closes no `(` is an error.
pub fn parse(tokens: Vec<Token>) -> (r: Result<Vec<SExpr>, String>)
    ensures
        r is Err <==> closes_unopened(toks(tokens@)),
        r is Ok ==> views_of(r->Ok_0@) == parse_tokens(toks(tokens@)),
{
    let ghost ts = toks(tokens@);
    let mut s_exprs: Vec<SExpr> = Vec::new();
    let mut left: usize = 0;
    let mut depth: usize = 0;
    let mut right: usize = 0;
    proof {
        lemma_scan_balance(ts, tokens@.len());
    }
    while right < tokens.len()
        invariant
            ts == toks(tokens@),
            right <= tokens@.len(),
            depth <= right,
            left <= right,
            depth == 0 ==> left == right,
            depth > 0 ==> left < right,
            scan(ts, right as nat) == (Scan {
                nodes: views_of(s_exprs@),
                left: left as nat,
                depth: depth as nat,
                failed: false,
            }),
            scan(ts, tokens@.len()).failed <==> closes_unopened(ts),
        decreases tokens@.len() - right,
    {
        match &tokens[right] {
            Token::LParen => {
                depth = depth + 1;
            },
            Token::RParen => {
                if depth == 0 {
                    proof {
                        lemma_scan_fails_after(ts, (right + 1) as nat, tokens@.len());
                    }
                    return Err("unbalanced parentheses: a ')' closes no '('".to_owned());
                }
                depth = depth - 1;
                if depth == 0 {
                    match parse_s_expr(&tokens, right, left + 1) {
                        Some((s_expr, _)) => {
                            proof {
                                lemma_views_of_push(s_exprs@, s_expr);
                            }
                            s_exprs.push(s_expr);
                        },
                        None => {},
                    }
                    left = right + 1;
                }
            },
            Token::String(_) => {
                if depth == 0 {
                    left = right + 1;
                }
            },
        }
        right = right + 1;
    }
    Ok(s_exprs)
}

/// Once the scan has failed it stays failed.
proof fn lemma_scan_fails_after(ts: Seq<Tok>, m: nat, n: nat)
    requires
        m <= n <= ts.len(),
        scan(ts, m).failed,
    ensures
        scan(ts, n).failed,
    decreases n - m,
{
    if m < n {
        lemma_scan_fails_after(ts, m, (n - 1) as nat);
    }
}

} // verus!
