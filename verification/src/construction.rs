//! Building a store from lists of statements and from a parsed knowledge base.

use crate::inference::closed;
use crate::inference::derived_fact;
use crate::inference::derived_rule;
use crate::inference::fact_assertion;
use crate::inference::lemma_grown_at;
use crate::inference::lemma_grown_chain;
use crate::inference::lemma_grown_fact;
use crate::inference::lemma_grown_holds;
use crate::inference::lemma_grown_rule;
use crate::inference::rule_assertion;
use crate::knowledge_base::KbView;
use crate::knowledge_base::KnowledgeBase;
use crate::laws::law_assert_fact_keeps_closed;
use crate::laws::law_assert_rule_keeps_closed;
use crate::parser::FactText;
use crate::parser::KbText;
use crate::parser::ParsedKnowledgeBase;
use crate::sequences::lemma_filter_none;
use crate::symbols::is_variable_name;
use crate::statement::facts_view;
use crate::statement::Fact;
use crate::statement::FactView;
use crate::statement::Rule;
use crate::statement::RuleView;
use crate::symbols::SymbolTable;
use crate::error::KbError;
use vstd::prelude::*;

verus! {

/// The rules of a list, as the logic sees them.
pub open spec fn rules_view(s: Seq<Rule>) -> Seq<RuleView> {
    Seq::new(s.len(), |i: int| s[i]@)
}

/// Every stored statement is one of the listed ones or is derived.
pub open spec fn listed_or_derived(kb: KbView, facts: Seq<FactView>, rules: Seq<RuleView>) -> bool {
    &&& forall|i: int|
        0 <= i < kb.facts.len() ==> facts.contains(#[trigger] kb.facts[i]) || derived_fact(
            kb,
            kb.facts[i],
        )
    &&& forall|j: int|
        0 <= j < kb.rules.len() ==> rules.contains(#[trigger] kb.rules[j]) || derived_rule(
            kb,
            kb.rules[j],
        )
}

/// Whether the fact is spelled with a variable among its arguments.
pub open spec fn spelled_with_variable(text: FactText) -> bool {
    exists|i: int| 0 <= i < text.args.len() && is_variable_name(#[trigger] text.args[i])
}

/// The facts that are spelled without a variable, in order.
pub open spec fn spelled_ground(texts: Seq<FactText>) -> Seq<FactText> {
    texts.filter(|text: FactText| !spelled_with_variable(text))
}

/// `facts` are, in order, the facts of `text` that are spelled without a
/// variable, and `rules` are, in order, the rules of `text`.
pub open spec fn spelled_by(facts: Seq<Fact>, rules: Seq<Rule>, text: KbText) -> bool {
    &&& facts.len() == spelled_ground(text.facts).len()
    &&& forall|k: int|
        0 <= k < facts.len() ==> (#[trigger] facts[k]).spells(
            spelled_ground(text.facts)[k].pred,
            spelled_ground(text.facts)[k].args,
        )
    &&& rules.len() == text.rules.len()
    &&& forall|j: int| 0 <= j < rules.len() ==> (#[trigger] rules[j]).spells(text.rules[j])
}

/// The store is what asserting `facts` and then `rules` gives: it is closed
/// under forward chaining, it holds each of the facts and each of the rules,
/// and whatever it holds is one of them or is derived.
pub open spec fn filled_with(kb: KbView, facts: Seq<Fact>, rules: Seq<Rule>) -> bool {
    &&& closed(kb)
    &&& forall|k: int|
        0 <= k < facts.len() && (#[trigger] facts[k])@.ground() ==> kb.has_fact(facts[k]@)
    &&& forall|k: int| 0 <= k < rules.len() ==> kb.has_rule((#[trigger] rules[k])@)
    &&& listed_or_derived(kb, facts_view(facts), rules_view(rules))
}

/// Asserting a listed fact keeps every stored statement listed or derived.
proof fn lemma_listed_fact(
    before: KbView,
    after: KbView,
    f: FactView,
    r: Result<FactView, KbError>,
    facts: Seq<FactView>,
    rules: Seq<RuleView>,
)
    requires
        listed_or_derived(before, facts, rules),
        fact_assertion(before, after, f, r),
        facts.contains(f),
    ensures
        listed_or_derived(after, facts, rules),
        forall|x: FactView| before.has_fact(x) ==> after.has_fact(x),
        forall|x: RuleView| before.has_rule(x) ==> after.has_rule(x),
        f.ground() ==> after.has_fact(f),
{
    if r is Ok {
        let mid = before.with_fact(f);
        lemma_grown_fact(before, f);
        lemma_grown_chain(before, mid, after);
        lemma_grown_holds(before, after);
        lemma_grown_holds(mid, after);
        lemma_grown_at(before, after);
        lemma_grown_at(mid, after);
        assert(mid.facts[before.facts.len() as int].same_atom(f));
        assert forall|i: int| 0 <= i < after.facts.len() implies facts.contains(
            #[trigger] after.facts[i],
        ) || derived_fact(after, after.facts[i]) by {
            if i < before.facts.len() {
                assert(after.facts[i] == before.facts[i]);
            } else if i == before.facts.len() {
                assert(after.facts[i] == mid.facts[i]);
            }
        }
        assert forall|j: int| 0 <= j < after.rules.len() implies rules.contains(
            #[trigger] after.rules[j],
        ) || derived_rule(after, after.rules[j]) by {
            if j < before.rules.len() {
                assert(after.rules[j] == before.rules[j]);
            }
        }
    }
}

/// Asserting a listed rule keeps every stored statement listed or derived.
proof fn lemma_listed_rule(
    before: KbView,
    after: KbView,
    ru: RuleView,
    r: Result<RuleView, KbError>,
    facts: Seq<FactView>,
    rules: Seq<RuleView>,
)
    requires
        listed_or_derived(before, facts, rules),
        rule_assertion(before, after, ru, r),
        rules.contains(ru),
    ensures
        listed_or_derived(after, facts, rules),
        forall|x: FactView| before.has_fact(x) ==> after.has_fact(x),
        forall|x: RuleView| before.has_rule(x) ==> after.has_rule(x),
        after.has_rule(ru),
{
    if r is Ok {
        let mid = before.with_rule(ru);
        lemma_grown_rule(before, ru);
        lemma_grown_chain(before, mid, after);
        lemma_grown_holds(before, after);
        lemma_grown_holds(mid, after);
        lemma_grown_at(before, after);
        lemma_grown_at(mid, after);
        assert(mid.rules[before.rules.len() as int].same_clause(ru));
        assert forall|i: int| 0 <= i < after.facts.len() implies facts.contains(
            #[trigger] after.facts[i],
        ) || derived_fact(after, after.facts[i]) by {
            if i < before.facts.len() {
                assert(after.facts[i] == before.facts[i]);
            }
        }
        assert forall|j: int| 0 <= j < after.rules.len() implies rules.contains(
            #[trigger] after.rules[j],
        ) || derived_rule(after, after.rules[j]) by {
            if j < before.rules.len() {
                assert(after.rules[j] == before.rules[j]);
            } else if j == before.rules.len() {
                assert(after.rules[j] == mid.rules[j]);
            }
        }
    }
}

impl KnowledgeBase {
    /// A store that interns in `symbols`, with the facts asserted in order and
    /// then the rules in order. A statement that is refused is passed over.
    /// The store is closed under forward chaining; it holds every listed
    /// ground fact and every listed rule; and whatever it holds is listed or
    /// derived.
    pub fn new_filled(facts: Vec<Fact>, rules: Vec<Rule>, symbols: SymbolTable) -> (kb:
        KnowledgeBase)
        ensures
            kb.wf(),
            filled_with(kb@, facts@, rules@),
    {
        let mut kb = KnowledgeBase::with_symbols(symbols);
        let ghost fs = facts_view(facts@);
        let ghost rs = rules_view(rules@);
        let mut i: usize = 0;
        while i < facts.len()
            invariant
                i <= facts.len(),
                kb.wf(),
                closed(kb@),
                fs == facts_view(facts@),
                rs == rules_view(rules@),
                listed_or_derived(kb@, fs, rs),
                forall|k: int|
                    0 <= k < i && (#[trigger] facts@[k])@.ground() ==> kb@.has_fact(facts@[k]@),
            decreases facts.len() - i,
        {
            let ghost before = kb@;
            let fact = facts[i].clone();
            assert(fs[i as int] == fact@);
            let res = kb.assert_fact(fact);
            proof {
                let r = match res {
                    Ok(stored) => Ok((*stored)@),
                    Err(e) => Err(e),
                };
                law_assert_fact_keeps_closed(before, kb@, fact@, r);
                lemma_listed_fact(before, kb@, fact@, r, fs, rs);
            }
            i += 1;
        }
        let mut j: usize = 0;
        while j < rules.len()
            invariant
                j <= rules.len(),
                kb.wf(),
                closed(kb@),
                fs == facts_view(facts@),
                rs == rules_view(rules@),
                listed_or_derived(kb@, fs, rs),
                forall|k: int|
                    0 <= k < facts@.len() && (#[trigger] facts@[k])@.ground() ==> kb@.has_fact(
                        facts@[k]@,
                    ),
                forall|k: int| 0 <= k < j ==> kb@.has_rule((#[trigger] rules@[k])@),
            decreases rules.len() - j,
        {
            let ghost before = kb@;
            let rule = rules[j].clone();
            assert(rs[j as int] == rule@);
            let res = kb.assert_rule(rule);
            proof {
                let r = match res {
                    Ok(stored) => Ok((*stored)@),
                    Err(e) => Err(e),
                };
                law_assert_rule_keeps_closed(before, kb@, rule@, r);
                lemma_listed_rule(before, kb@, rule@, r, fs, rs);
            }
            j += 1;
        }
        kb
    }

    /// The store that a parsed knowledge base describes. Its names are
    /// interned in a table of the store's own. Its facts that are spelled
    /// without a variable are asserted in order, then its rules in order.
    pub fn from(pkb: ParsedKnowledgeBase) -> (kb: KnowledgeBase)
        ensures
            kb.wf(),
            exists|facts: Seq<Fact>, rules: Seq<Rule>| #[trigger]
                spelled_by(facts, rules, pkb@) && filled_with(kb@, facts, rules),
    {
        let mut facts: Vec<Fact> = Vec::new();
        let mut rules: Vec<Rule> = Vec::new();
        let mut symbols = SymbolTable::new();
        let ghost text = pkb@;
        let ghost keep = |t: FactText| !spelled_with_variable(t);
        let mut i: usize = 0;
        proof {
            lemma_filter_none(text.facts.take(0), keep);
        }
        while i < pkb.facts.len()
            invariant
                i <= pkb.facts.len(),
                text == pkb@,
                keep == (|t: FactText| !spelled_with_variable(t)),
                facts@.len() == text.facts.take(i as int).filter(keep).len(),
                forall|k: int|
                    0 <= k < facts@.len() ==> (#[trigger] facts@[k]).spells(
                        text.facts.take(i as int).filter(keep)[k].pred,
                        text.facts.take(i as int).filter(keep)[k].args,
                    ),
            decreases pkb.facts.len() - i,
        {
            let f = Fact::from(&pkb.facts[i], &mut symbols);
            let ghost t = text.facts[i as int];
            proof {
                assert(t == pkb.facts@[i as int]@);
                assert(text.facts.take(i + 1) =~= text.facts.take(i as int).push(t));
                text.facts.take(i as int).lemma_filter_push(t, keep);
                if spelled_with_variable(t) {
                    let a = choose|a: int| 0 <= a < t.args.len() && is_variable_name(#[trigger] t.args[a]);
                    assert(f.args@[a].is_var());
                    assert(f@.args[a].var);
                } else {
                    assert forall|a: int| 0 <= a < f@.args.len() implies !(#[trigger] f@.args[a]).var by {
                        assert(f.args@[a].is_var() == is_variable_name(t.args[a]));
                    }
                }
            }
            if !f.contains_variable() {
                facts.push(f);
            }
            i += 1;
        }
        assert(text.facts.take(pkb.facts.len() as int) =~= text.facts);
        let mut j: usize = 0;
        while j < pkb.rules.len()
            invariant
                j <= pkb.rules.len(),
                text == pkb@,
                rules@.len() == j,
                forall|k: int| 0 <= k < j ==> (#[trigger] rules@[k]).spells(text.rules[k]),
            decreases pkb.rules.len() - j,
        {
            let r = Rule::from(&pkb.rules[j], &mut symbols);
            assert(text.rules[j as int] == pkb.rules@[j as int]@);
            rules.push(r);
            j += 1;
        }
        let ghost fs = facts@;
        let ghost rs = rules@;
        let kb = KnowledgeBase::new_filled(facts, rules, symbols);
        assert(spelled_by(fs, rs, pkb@) && filled_with(kb@, fs, rs));
        kb
    }
}

} // verus!
