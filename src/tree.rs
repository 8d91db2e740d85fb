use vstd::prelude::*;

verus! {

/// A rule as the proofs see it: a property and its value words.
pub struct RuleV {
    pub property: Seq<char>,
    pub value: Seq<Seq<char>>,
}

/// A node as the proofs see it.
pub struct NodeV {
    pub selector: Seq<char>,
    pub rules: Seq<RuleV>,
    pub children: Seq<NodeV>,
}

/// The selector of a node, as it was written.
#[derive(Debug, PartialEq, Eq)]
pub struct Selector(pub String);

/// A property with its value, a non-empty list of words.
#[derive(Debug, PartialEq, Eq)]
pub struct Rule {
    pub property: String,
    pub value: Vec<String>,
}

impl View for Rule {
    type V = RuleV;

    open spec fn view(&self) -> RuleV {
        RuleV { property: self.property@, value: self.value@.map_values(|s: String| s@) }
    }
}

/// One parsed group: a selector, its rules and its nested groups, each in
/// the order in which they were written.
#[derive(Debug, PartialEq, Eq)]
pub struct SExpr {
    pub selector: Selector,
    pub rules: Vec<Rule>,
    pub children: Vec<SExpr>,
}

impl View for SExpr {
    type V = NodeV;

    open spec fn view(&self) -> NodeV
        decreases self,
    {
        NodeV {
            selector: self.selector.0@,
            rules: self.rules@.map_values(|r: Rule| r@),
            children: views_of(self.children@),
        }
    }
}

/// The views of a sequence of nodes.
pub open spec fn views_of(cs: Seq<SExpr>) -> Seq<NodeV>
    decreases cs,
{
    if cs.len() == 0 {
        Seq::empty()
    } else {
        views_of(cs.drop_last()).push(cs.last()@)
    }
}

pub proof fn lemma_views_of_push(cs: Seq<SExpr>, c: SExpr)
    ensures
        views_of(cs.push(c)) == views_of(cs).push(c@),
{
    assert(cs.push(c).drop_last() =~= cs);
}

pub proof fn lemma_views_of_index(cs: Seq<SExpr>)
    ensures
        views_of(cs).len() == cs.len(),
        forall|i: int| 0 <= i < cs.len() ==> #[trigger] views_of(cs)[i] == cs[i]@,
    decreases cs.len(),
{
    if cs.len() == 0 {
        assert(views_of(cs) == Seq::<NodeV>::empty());
    } else {
        lemma_views_of_index(cs.drop_last());
        assert(views_of(cs) == views_of(cs.drop_last()).push(cs.last()@));
        assert forall|i: int| 0 <= i < cs.len() implies #[trigger] views_of(cs)[i] == cs[i]@ by {
            if i < cs.len() - 1 {
                assert(cs.drop_last()[i] == cs[i]);
            }
        }
    }
}

} // verus!
