//! A parser of features that goes by lists of rules.
use vstd::prelude::*;
use vstd::string::StrSliceExecFns;
use crate::features::{FeatureParser, Pairs, Tags};

verus! {

/// A tag that lets a piece of source data appear, and as what: the key of the
/// tag, its value unless any value will do, and the category.
pub struct Rule {
    pub key: String,
    pub value: Option<String>,
    pub category: u32,
}

/// A list of rules for areas, one for nodes and one for ways. A piece of
/// source data appears as the first rule of its list says that one of its
/// tags meets.
pub struct SimpleVisual {
    pub areas: Vec<Rule>,
    pub nodes: Vec<Rule>,
    pub ways: Vec<Rule>,
}

/// The tag has the key of the rule, and its value if the rule names one.
pub open spec fn meets(rule: Rule, pair: (Seq<char>, Seq<char>)) -> bool {
    pair.0 == rule.key@ && match rule.value {
        Some(value) => pair.1 == value@,
        None => true,
    }
}

/// One of the tags meets the rule.
pub open spec fn applies(rule: Rule, pairs: Seq<(Seq<char>, Seq<char>)>) -> bool {
    exists|i: int| 0 <= i < pairs.len() && meets(rule, #[trigger] pairs[i])
}

/// The category of the first of the rules from `k` on that applies, if one
/// does.
pub open spec fn decision_from(rules: Seq<Rule>, pairs: Seq<(Seq<char>, Seq<char>)>, k: int) -> Option<u32>
    decreases rules.len() - k,
{
    if k < 0 || k >= rules.len() {
        None
    } else if applies(rules[k], pairs) {
        Some(rules[k].category)
    } else {
        decision_from(rules, pairs, k + 1)
    }
}

/// The category of the first of the rules that applies, if one does.
pub open spec fn decision(rules: Seq<Rule>, pairs: Seq<(Seq<char>, Seq<char>)>) -> Option<u32> {
    decision_from(rules, pairs, 0)
}

/// Tests whether two texts are the same, character by character.
pub fn same_text(a: &str, b: &str) -> (r: bool)
    ensures
        r == (a@ == b@),
{
    let n = a.unicode_len();
    if n != b.unicode_len() {
        return false;
    }
    let mut i: usize = 0;
    while i < n
        invariant
            i <= n,
            n == a@.len(),
            n == b@.len(),
            forall|j: int| 0 <= j < i ==> a@[j] == b@[j],
        decreases n - i,
    {
        if a.get_char(i) != b.get_char(i) {
            return false;
        }
        i = i + 1;
    }
    assert(a@ =~= b@);
    true
}

/// Tests whether one of `tags` meets `rule`.
pub fn rule_applies<T: Tags>(rule: &Rule, tags: &T) -> (r: bool)
    ensures
        r == applies(*rule, tags.pairs()),
{
    let n = tags.count();
    let mut i: usize = 0;
    while i < n
        invariant
            i <= n,
            n == tags.pairs().len(),
            forall|j: int| 0 <= j < i ==> !meets(*rule, #[trigger] tags.pairs()[j]),
        decreases n - i,
    {
        if same_text(tags.key(i), rule.key.as_str()) {
            let value_fits = match &rule.value {
                Some(value) => same_text(tags.value(i), value.as_str()),
                None => true,
            };
            if value_fits {
                assert(meets(*rule, tags.pairs()[i as int]));
                return true;
            }
        }
        i = i + 1;
    }
    false
}

/// The category of the first of `rules` that one of `tags` meets, if there
/// is one.
pub fn decide<T: Tags>(rules: &Vec<Rule>, tags: &T) -> (r: Option<u32>)
    ensures
        r == decision(rules@, tags.pairs()),
{
    let n = rules.len();
    let mut k: usize = 0;
    while k < n
        invariant
            k <= n,
            n == rules@.len(),
            decision(rules@, tags.pairs()) == decision_from(rules@, tags.pairs(), k as int),
        decreases n - k,
    {
        if rule_applies(&rules[k], tags) {
            return Some(rules[k].category);
        }
        k = k + 1;
    }
    None
}

impl FeatureParser for SimpleVisual {
    type Feature = u32;

    open spec fn area_answer(&self, pairs: Pairs, answer: Option<u32>) -> bool {
        answer == decision(self.areas@, pairs)
    }

    open spec fn node_answer(&self, pairs: Pairs, answer: Option<u32>) -> bool {
        answer == decision(self.nodes@, pairs)
    }

    open spec fn way_answer(&self, pairs: Pairs, answer: Option<u32>) -> bool {
        answer == decision(self.ways@, pairs)
    }

    fn area<T: Tags>(&self, area: &T) -> (r: Option<u32>)
        ensures
            r == decision(self.areas@, area.pairs()),
    {
        decide(&self.areas, area)
    }

    fn node<T: Tags>(&self, node: &T) -> (r: Option<u32>)
        ensures
            r == decision(self.nodes@, node.pairs()),
    {
        decide(&self.nodes, node)
    }

    fn way<T: Tags>(&self, way: &T) -> (r: Option<u32>)
        ensures
            r == decision(self.ways@, way.pairs()),
    {
        decide(&self.ways, way)
    }
}

} // verus!
