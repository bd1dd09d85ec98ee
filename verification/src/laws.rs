//! What holds of the store whatever it holds, stated over the outcomes of
//! asserting, retracting and matching.

use crate::error::KbError;
use crate::inference::closed;
use crate::inference::consequence;
use crate::inference::fact_assertion;
use crate::inference::fired;
use crate::inference::follows;
use crate::inference::grown;
use crate::inference::lemma_grown_at;
use crate::inference::lemma_grown_chain;
use crate::inference::lemma_grown_fact;
use crate::inference::lemma_grown_holds;
use crate::inference::lemma_grown_rule;
use crate::inference::rule_assertion;
use crate::inference::settled;
use crate::knowledge_base::KbView;
use crate::retraction::lemma_facts_distinct;
use crate::retraction::pruned;
use crate::retraction::retraction;
use crate::retraction::rests_on_what_left;
use crate::sequences::lemma_filter_within;
use crate::sequences::lemma_kept_within;
use crate::statement::names_fact;
use crate::statement::names_rule;
use crate::statement::FactView;
use crate::statement::RuleView;
use crate::statement::StatementView;
use crate::unify::bind_prefix;
use crate::unify::lemma_failure_is_final;
use crate::unify::unify;
use vstd::prelude::*;

verus! {

/// Asserting a ground fact a second time is refused as a duplicate and
/// changes nothing; after the first time the store holds the fact exactly once.
pub proof fn law_assert_twice(
    kb0: KbView,
    kb1: KbView,
    kb2: KbView,
    f: FactView,
    r1: Result<FactView, KbError>,
    r2: Result<FactView, KbError>,
)
    requires
        kb0.valid(),
        kb1.valid(),
        f.ground(),
        fact_assertion(kb0, kb1, f, r1),
        fact_assertion(kb1, kb2, f, r2),
    ensures
        r2 == Err::<FactView, KbError>(KbError::Duplicate),
        kb2 == kb1,
        exists|i: int|
            0 <= i < kb1.facts.len() && (#[trigger] kb1.facts[i]).same_atom(f) && forall|j: int|
                0 <= j < kb1.facts.len() && j != i ==> !(#[trigger] kb1.facts[j]).same_atom(f),
{
    if !kb0.has_fact(f) {
        let mid = kb0.with_fact(f);
        assert(mid.facts[kb0.facts.len() as int].same_atom(f));
        lemma_grown_holds(mid, kb1);
    }
    assert(kb1.has_fact(f));
    let i = choose|i: int| 0 <= i < kb1.facts.len() && (#[trigger] kb1.facts[i]).same_atom(f);
    assert forall|j: int| 0 <= j < kb1.facts.len() && j != i implies !(
    #[trigger] kb1.facts[j]).same_atom(f) by {
        if j < i {
            assert(!kb1.facts[j].same_atom(kb1.facts[i]));
        } else {
            assert(!kb1.facts[i].same_atom(kb1.facts[j]));
        }
    }
}

/// A ground fact without justification that was asserted can be retracted,
/// and is then neither stored nor among the facts that answer any pattern.
pub proof fn law_assert_then_retract(
    kb0: KbView,
    kb1: KbView,
    kb2: KbView,
    f: FactView,
    r1: Result<FactView, KbError>,
    r2: Result<(), KbError>,
    pattern: FactView,
)
    requires
        kb0.valid(),
        kb1.valid(),
        f.ground(),
        f.supported_by.len() == 0,
        fact_assertion(kb0, kb1, f, r1),
        r1 is Ok,
        retraction(kb1, kb2, StatementView::Fact(f), r2),
    ensures
        r2 == Ok::<(), KbError>(()),
        !kb2.has_fact(f),
        forall|i: int|
            0 <= i < kb2.matches(pattern).len() ==> !(#[trigger] kb2.matches(pattern)[i]).same_atom(
                f,
            ),
{
    let mid = kb0.with_fact(f);
    lemma_grown_at(mid, kb1);
    assert(kb1.facts[kb0.facts.len() as int] == f);
    assert(kb1.facts.contains(f));
    law_retracted_is_gone(kb1, kb2, f);
    assert forall|i: int| 0 <= i < kb2.matches(pattern).len() implies !(
    #[trigger] kb2.matches(pattern)[i]).same_atom(f) by {
        let x = kb2.matches(pattern)[i];
        assert(kb2.matches(pattern).contains(x));
        lemma_filter_within(
            kb2.facts,
            crate::index::matching(pattern, kb2.depth_of(pattern.pred)),
            x,
        );
        let k = choose|k: int| 0 <= k < kb2.facts.len() && kb2.facts[k] == x;
        assert(kb2.facts[k] == x);
    }
}

/// When a stored fact has been pruned from a valid store, no fact with its
/// predicate and arguments is stored any more.
pub proof fn law_retracted_is_gone(before: KbView, after: KbView, f: FactView)
    requires
        before.valid(),
        before.facts.contains(f),
        pruned(before, after, StatementView::Fact(f)),
    ensures
        !after.facts.contains(f),
        !after.has_fact(f),
{
    if after.has_fact(f) {
        let i = choose|i: int| 0 <= i < after.facts.len() && (#[trigger] after.facts[i]).same_atom(f);
        let x = after.facts[i];
        assert(after.facts.contains(x));
        lemma_kept_within(before.facts, after.facts, x);
        let a = choose|a: int| 0 <= a < before.facts.len() && before.facts[a] == x;
        let b = choose|b: int| 0 <= b < before.facts.len() && before.facts[b] == f;
        if a < b {
            assert(!before.facts[a].same_atom(before.facts[b]));
        } else if b < a {
            assert(!before.facts[b].same_atom(before.facts[a]));
        }
    }
}

/// A statement with a justification cannot be retracted: the attempt fails
/// as unsupportable and changes nothing.
pub proof fn law_supported_stays(
    before: KbView,
    after: KbView,
    statement: StatementView,
    r: Result<(), KbError>,
)
    requires
        retraction(before, after, statement, r),
        match statement {
            StatementView::Fact(f) => f.supported_by.len() > 0,
            StatementView::Rule(ru) => ru.supported_by.len() > 0,
        },
    ensures
        r == Err::<(), KbError>(KbError::Unsupportable),
        after == before,
{
}

/// Retracting a fact removes, with the fact, every stored fact whose
/// justification names it.
pub proof fn law_retract_cascades(
    before: KbView,
    after: KbView,
    a: FactView,
    b: FactView,
    r: Result<(), KbError>,
)
    requires
        before.valid(),
        before.facts.contains(b),
        names_fact(b.supported_by, a),
        retraction(before, after, StatementView::Fact(a), r),
        r is Ok,
    ensures
        !after.has_fact(a),
        !after.facts.contains(b),
        !after.has_fact(b),
{
    assert(before.facts.contains(a));
    law_retracted_is_gone(before, after, a);
    let k = choose|k: int| 0 <= k < b.supported_by.len() && (#[trigger] b.supported_by[k]).0 == a;
    assert(rests_on_what_left(b.supported_by, before, after));
    if after.facts.contains(b) {
        let i = choose|i: int| 0 <= i < after.facts.len() && after.facts[i] == b;
        assert(!rests_on_what_left(after.facts[i].supported_by, before, after));
    }
    law_left_is_gone(before, after, b);
}

/// Retracting a rule removes, with the rule, every stored fact whose
/// justification names it.
pub proof fn law_retract_rule_cascades(
    before: KbView,
    after: KbView,
    a: RuleView,
    b: FactView,
    r: Result<(), KbError>,
)
    requires
        before.valid(),
        before.facts.contains(b),
        names_rule(b.supported_by, a),
        retraction(before, after, StatementView::Rule(a), r),
        r is Ok,
    ensures
        !after.rules.contains(a),
        !after.facts.contains(b),
        !after.has_fact(b),
{
    let k = choose|k: int| 0 <= k < b.supported_by.len() && (#[trigger] b.supported_by[k]).1 == a;
    assert(rests_on_what_left(b.supported_by, before, after));
    if after.facts.contains(b) {
        let i = choose|i: int| 0 <= i < after.facts.len() && after.facts[i] == b;
        assert(!rests_on_what_left(after.facts[i].supported_by, before, after));
    }
    law_left_is_gone(before, after, b);
}

/// A fact that left a valid store in a retraction left no fact with its
/// predicate and arguments behind.
pub proof fn law_left_is_gone(before: KbView, after: KbView, f: FactView)
    requires
        before.valid(),
        before.facts.contains(f),
        !after.facts.contains(f),
        crate::sequences::kept(before.facts, after.facts),
    ensures
        !after.has_fact(f),
{
    if after.has_fact(f) {
        let i = choose|i: int| 0 <= i < after.facts.len() && (#[trigger] after.facts[i]).same_atom(f);
        let x = after.facts[i];
        assert(after.facts.contains(x));
        lemma_kept_within(before.facts, after.facts, x);
        let a = choose|a: int| 0 <= a < before.facts.len() && before.facts[a] == x;
        let b = choose|b: int| 0 <= b < before.facts.len() && before.facts[b] == f;
        if a < b {
            assert(!before.facts[a].same_atom(before.facts[b]));
        } else if b < a {
            assert(!before.facts[b].same_atom(before.facts[a]));
        }
    }
}

/// Facts with different predicates do not unify.
pub proof fn law_predicates_must_agree(f1: FactView, f2: FactView)
    requires
        f1.pred != f2.pred,
    ensures
        unify(f1, f2).is_none(),
{
}

/// Facts with different numbers of arguments do not unify.
pub proof fn law_arities_must_agree(f1: FactView, f2: FactView)
    requires
        f1.args.len() != f2.args.len(),
    ensures
        unify(f1, f2).is_none(),
{
}

/// Facts that hold different constants at one position do not unify.
pub proof fn law_constants_must_agree(f1: FactView, f2: FactView, i: int)
    requires
        0 <= i < f1.args.len(),
        0 <= i < f2.args.len(),
        !f1.args[i].var,
        !f2.args[i].var,
        f1.args[i] != f2.args[i],
    ensures
        unify(f1, f2).is_none(),
{
    if f1.pred == f2.pred && f1.args.len() == f2.args.len() {
        assert(bind_prefix(f1.args, f2.args, (i + 1) as nat).is_none());
        lemma_failure_is_final(f1.args, f2.args, (i + 1) as nat, f1.args.len());
    }
}

/// Facts that hold different variables at one position do not unify: a
/// variable is never bound to a variable.
pub proof fn law_variables_do_not_alias(f1: FactView, f2: FactView, i: int)
    requires
        0 <= i < f1.args.len(),
        0 <= i < f2.args.len(),
        f1.args[i].var,
        f2.args[i].var,
        f1.args[i] != f2.args[i],
    ensures
        unify(f1, f2).is_none(),
{
    if f1.pred == f2.pred && f1.args.len() == f2.args.len() {
        assert(bind_prefix(f1.args, f2.args, (i + 1) as nat).is_none());
        lemma_failure_is_final(f1.args, f2.args, (i + 1) as nat, f1.args.len());
    }
}

/// In a closed store, what follows in one step from a stored fact and a
/// stored rule is stored.
pub proof fn law_closed_store_derives(kb: KbView, f: FactView, r: RuleView)
    requires
        closed(kb),
        kb.facts.contains(f),
        kb.rules.contains(r),
    ensures
        match consequence(f, r) {
            Some(StatementView::Fact(c)) => kb.has_fact(c),
            Some(StatementView::Rule(c)) => kb.has_rule(c),
            None => true,
        },
{
    let i = choose|i: int| 0 <= i < kb.facts.len() && kb.facts[i] == f;
    let j = choose|j: int| 0 <= j < kb.rules.len() && kb.rules[j] == r;
    assert(fired(kb, kb.facts[i], kb.rules[j]));
}

/// Asserting a fact keeps a closed store closed, and the store then holds the fact.
pub proof fn law_assert_fact_keeps_closed(
    before: KbView,
    after: KbView,
    f: FactView,
    r: Result<FactView, KbError>,
)
    requires
        closed(before),
        fact_assertion(before, after, f, r),
    ensures
        closed(after),
        r is Ok ==> after.has_fact(f),
{
    if r is Ok {
        let mid = before.with_fact(f);
        lemma_grown_fact(before, f);
        lemma_grown_chain(before, mid, after);
        assert(mid.facts[before.facts.len() as int].same_atom(f));
        lemma_grown_holds(mid, after);
        lemma_closed_grows(before, after);
    }
}

/// Asserting a rule keeps a closed store closed, and the store then holds the rule.
pub proof fn law_assert_rule_keeps_closed(
    before: KbView,
    after: KbView,
    ru: RuleView,
    r: Result<RuleView, KbError>,
)
    requires
        closed(before),
        rule_assertion(before, after, ru, r),
    ensures
        closed(after),
        r is Ok ==> after.has_rule(ru),
{
    if r is Ok {
        let mid = before.with_rule(ru);
        lemma_grown_rule(before, ru);
        lemma_grown_chain(before, mid, after);
        assert(mid.rules[before.rules.len() as int].same_clause(ru));
        lemma_grown_holds(mid, after);
        lemma_closed_grows(before, after);
    }
}

/// A closed store that has grown, with every new pair fired, is closed.
pub proof fn lemma_closed_grows(before: KbView, after: KbView)
    requires
        closed(before),
        grown(before, after),
        settled(before, after),
    ensures
        closed(after),
{
    lemma_grown_holds(before, after);
    lemma_grown_at(before, after);
    assert forall|i: int, j: int|
        0 <= i < after.facts.len() && 0 <= j < after.rules.len() implies #[trigger] fired(
        after,
        after.facts[i],
        after.rules[j],
    ) by {
        if i < before.facts.len() && j < before.rules.len() {
            assert(after.facts[i] == before.facts[i]);
            assert(after.rules[j] == before.rules[j]);
            assert(fired(before, before.facts[i], before.rules[j]));
        }
    }
}

/// An empty store is closed.
pub proof fn law_empty_store_is_closed(kb: KbView)
    requires
        kb.facts.len() == 0,
    ensures
        closed(kb),
{
}

/// Asserting adds derived statements only: whatever a successful assertion
/// of a fact stored behind the fact is what follows in one step from a
/// stored fact and a stored rule, of which one was not stored before.
pub proof fn law_assert_adds_derived_only(
    before: KbView,
    after: KbView,
    f: FactView,
    r: Result<FactView, KbError>,
    i: int,
)
    requires
        fact_assertion(before, after, f, r),
        r is Ok,
        before.facts.len() < i < after.facts.len(),
    ensures
        after.facts[i].supported_by.len() == 1,
        after.facts.contains(after.facts[i].supported_by[0].0),
        after.rules.contains(after.facts[i].supported_by[0].1),
        consequence(after.facts[i].supported_by[0].0, after.facts[i].supported_by[0].1) == Some(
            StatementView::Fact(after.facts[i]),
        ),
        !before.facts.contains(after.facts[i].supported_by[0].0) || !before.rules.contains(
            after.facts[i].supported_by[0].1,
        ),
{
    assert(follows(before, before.with_fact(f), after, None));
}

} // verus!
