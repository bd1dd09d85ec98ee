//! Asserting: a statement enters the store, and with it what follows from it
//! by forward chaining.

use crate::error::KbError;
use crate::index::rc_facts_view;
use crate::knowledge_base::deepen;
use crate::knowledge_base::deepen_one;
use crate::knowledge_base::rc_rules_view;
use crate::knowledge_base::KbView;
use crate::knowledge_base::KnowledgeBase;
use crate::retraction::share_facts;
use crate::retraction::share_rules;
use crate::statement::facts_view;
use crate::statement::Fact;
use crate::statement::FactView;
use crate::statement::Rule;
use crate::statement::RuleView;
use crate::statement::Statement;
use crate::statement::StatementView;
use crate::statement::StoredStatement;
use crate::symbols::Sym;
use crate::unify::apply_bindings;
use crate::unify::has_var;
use crate::unify::substitute;
use crate::unify::try_bind;
use crate::unify::unify;
use crate::unify::Bindings;
use std::rc::Rc;
use vstd::pervasive::unreached;
use vstd::prelude::*;

verus! {

/// The rule that is left of `r` when its first premise has been matched under
/// `bindings`: the other premises and the conclusion, with the bindings put in.
pub open spec fn specialised(
    r: RuleView,
    bindings: Map<Sym, Sym>,
    support: Seq<(FactView, RuleView)>,
) -> RuleView {
    RuleView {
        lhs: Seq::new(
            (r.lhs.len() - 1) as nat,
            |i: int| substitute(r.lhs[i + 1], bindings, Seq::empty()),
        ),
        rhs: substitute(r.rhs, bindings, Seq::empty()),
        supported_by: support,
    }
}

/// What follows from a fact and a rule in one step. Only the rule's first
/// premise is matched against the fact. A rule with one premise gives its
/// conclusion with the bindings put in, unless a variable is left in it; a
/// rule with more premises gives the rule that is left. Either is justified
/// by the fact and the rule.
pub open spec fn consequence(f: FactView, r: RuleView) -> Option<StatementView> {
    if r.lhs.len() == 0 {
        None
    } else {
        match unify(f, r.lhs[0]) {
            None => None,
            Some(bindings) => if r.lhs.len() == 1 {
                let conclusion = substitute(r.rhs, bindings, seq![(f, r)]);
                if conclusion.ground() {
                    Some(StatementView::Fact(conclusion))
                } else {
                    None
                }
            } else {
                Some(StatementView::Rule(specialised(r, bindings, seq![(f, r)])))
            },
        }
    }
}

/// What follows from the fact and the rule in one step is stored.
pub open spec fn fired(kb: KbView, f: FactView, r: RuleView) -> bool {
    match consequence(f, r) {
        Some(StatementView::Fact(c)) => kb.has_fact(c),
        Some(StatementView::Rule(c)) => kb.has_rule(c),
        None => true,
    }
}

/// The store is closed under forward chaining: what follows in one step from
/// a stored fact and a stored rule is stored.
pub open spec fn closed(kb: KbView) -> bool {
    forall|i: int, j: int|
        0 <= i < kb.facts.len() && 0 <= j < kb.rules.len() ==> #[trigger] fired(
            kb,
            kb.facts[i],
            kb.rules[j],
        )
}

/// `after` is `before` with statements added behind: what was stored keeps
/// its place, and the indexes are as deep as the added facts make them.
pub open spec fn grown(before: KbView, after: KbView) -> bool {
    &&& before.facts.is_prefix_of(after.facts)
    &&& before.rules.is_prefix_of(after.rules)
    &&& after.depth == deepen(before.depth, after.facts.skip(before.facts.len() as int))
}

/// The fact is what follows in one step from the one pair that justifies it,
/// and that pair is stored.
pub open spec fn derived_fact(kb: KbView, x: FactView) -> bool {
    &&& x.supported_by.len() == 1
    &&& kb.facts.contains(x.supported_by[0].0)
    &&& kb.rules.contains(x.supported_by[0].1)
    &&& consequence(x.supported_by[0].0, x.supported_by[0].1) == Some(StatementView::Fact(x))
}

/// The rule is what follows in one step from the one pair that justifies it,
/// and that pair is stored.
pub open spec fn derived_rule(kb: KbView, x: RuleView) -> bool {
    &&& x.supported_by.len() == 1
    &&& kb.facts.contains(x.supported_by[0].0)
    &&& kb.rules.contains(x.supported_by[0].1)
    &&& consequence(x.supported_by[0].0, x.supported_by[0].1) == Some(StatementView::Rule(x))
}

/// The pair that justifies a statement is new to `base`: its fact or its rule
/// was not stored there.
pub open spec fn fresh(base: KbView, support: Seq<(FactView, RuleView)>) -> bool {
    support.len() > 0 && (!base.facts.contains(support[0].0) || !base.rules.contains(
        support[0].1,
    ))
}

/// The pair that justifies a statement is the given one.
pub open spec fn seeded(seed: Option<(FactView, RuleView)>, support: Seq<(FactView, RuleView)>) -> bool {
    support.len() > 0 && seed == Some(support[0])
}

/// `after` is `before` with derived statements added behind, and nothing
/// else: each added statement follows in one step from a stored pair, and
/// that pair is new to `base` or is `seed`.
pub open spec fn follows(
    base: KbView,
    before: KbView,
    after: KbView,
    seed: Option<(FactView, RuleView)>,
) -> bool {
    &&& grown(before, after)
    &&& forall|i: int|
        before.facts.len() <= i < after.facts.len() ==> derived_fact(
            after,
            #[trigger] after.facts[i],
        ) && (fresh(base, after.facts[i].supported_by) || seeded(seed, after.facts[i].supported_by))
    &&& forall|j: int|
        before.rules.len() <= j < after.rules.len() ==> derived_rule(
            after,
            #[trigger] after.rules[j],
        ) && (fresh(base, after.rules[j].supported_by) || seeded(seed, after.rules[j].supported_by))
}

/// Every stored pair of fact and rule has fired, but for the pairs that were
/// both stored before and the pairs in the given ranges.
pub open spec fn settled_but(
    before: KbView,
    after: KbView,
    facts_from: int,
    facts_to: int,
    rules_from: int,
    rules_to: int,
) -> bool {
    forall|i: int, j: int|
        0 <= i < after.facts.len() && 0 <= j < after.rules.len() ==> #[trigger] fired(
            after,
            after.facts[i],
            after.rules[j],
        ) || (i < before.facts.len() && j < before.rules.len()) || (facts_from <= i < facts_to
            && rules_from <= j < rules_to)
}

/// Every stored pair of fact and rule of which one was added has fired.
pub open spec fn settled(before: KbView, after: KbView) -> bool {
    settled_but(before, after, 0, 0, 0, 0)
}

/// What asserting a fact does. A fact with a variable, or one that is stored,
/// is refused and the store stays as it was. Otherwise the fact is stored
/// behind what was stored; everything behind it follows in one step from a
/// stored pair of fact and rule of which one is new; and every stored pair
/// of which one is new has fired. So the statements that are added are those
/// that the new fact brings about, and no others.
pub open spec fn fact_assertion(
    before: KbView,
    after: KbView,
    f: FactView,
    r: Result<FactView, KbError>,
) -> bool {
    if !f.ground() {
        r == Err::<FactView, KbError>(KbError::GroundnessViolation) && after == before
    } else if before.has_fact(f) {
        r == Err::<FactView, KbError>(KbError::Duplicate) && after == before
    } else {
        &&& r == Ok::<FactView, KbError>(f)
        &&& follows(before, before.with_fact(f), after, None)
        &&& settled(before, after)
    }
}

/// What asserting a rule does. A rule that is stored is refused and the store
/// stays as it was. Otherwise the rule is stored behind what was stored;
/// everything behind it follows in one step from a stored pair of fact and
/// rule of which one is new; and every stored pair of which one is new has
/// fired. So the statements that are added are those that the new rule
/// brings about, and no others.
pub open spec fn rule_assertion(
    before: KbView,
    after: KbView,
    ru: RuleView,
    r: Result<RuleView, KbError>,
) -> bool {
    if before.has_rule(ru) {
        r == Err::<RuleView, KbError>(KbError::Duplicate) && after == before
    } else {
        &&& r == Ok::<RuleView, KbError>(ru)
        &&& follows(before, before.with_rule(ru), after, None)
        &&& settled(before, after)
    }
}

/// What asserting a statement does, by its kind. What is handed back is the
/// statement as stored, of the same kind.
pub open spec fn assertion(
    before: KbView,
    after: KbView,
    statement: StatementView,
    r: Result<StatementView, KbError>,
) -> bool {
    match statement {
        StatementView::Fact(f) => match r {
            Ok(StatementView::Fact(stored)) => fact_assertion(before, after, f, Ok(stored)),
            Ok(StatementView::Rule(_)) => false,
            Err(e) => fact_assertion(before, after, f, Err(e)),
        },
        StatementView::Rule(ru) => match r {
            Ok(StatementView::Rule(stored)) => rule_assertion(before, after, ru, Ok(stored)),
            Ok(StatementView::Fact(_)) => false,
            Err(e) => rule_assertion(before, after, ru, Err(e)),
        },
    }
}

/// The room that is left in the store: it shrinks with every statement stored.
pub open spec fn room(kb: KbView) -> int {
    2 * usize::MAX - kb.facts.len() - kb.rules.len()
}

/// Storing two lists of facts one after the other deepens as storing them joined.
pub proof fn lemma_deepen_concat(depth: Map<Sym, nat>, x: Seq<FactView>, y: Seq<FactView>)
    ensures
        deepen(depth, x + y) == deepen(deepen(depth, x), y),
    decreases y.len(),
{
    if y.len() == 0 {
        assert(x + y =~= x);
    } else {
        lemma_deepen_concat(depth, x, y.drop_last());
        assert((x + y).drop_last() =~= x + y.drop_last());
        assert((x + y).last() == y.last());
    }
}

/// A store has grown from itself.
pub proof fn lemma_grown_same(kb: KbView)
    ensures
        grown(kb, kb),
        forall|base: KbView, seed: Option<(FactView, RuleView)>| #[trigger] follows(base, kb, kb, seed),
{
    assert(kb.facts.skip(kb.facts.len() as int) =~= Seq::empty());
}

/// A store with one more fact has grown.
pub proof fn lemma_grown_fact(kb: KbView, f: FactView)
    ensures
        grown(kb, kb.with_fact(f)),
{
    let fs = kb.with_fact(f).facts.skip(kb.facts.len() as int);
    assert(fs =~= seq![f]);
    assert(fs.drop_last() =~= Seq::empty());
    reveal_with_fuel(deepen, 2);
}

/// A store with one more rule has grown.
pub proof fn lemma_grown_rule(kb: KbView, r: RuleView)
    ensures
        grown(kb, kb.with_rule(r)),
{
    assert(kb.facts.skip(kb.facts.len() as int) =~= Seq::empty());
}

/// Growing twice is growing.
pub proof fn lemma_grown_chain(a: KbView, b: KbView, c: KbView)
    requires
        grown(a, b),
        grown(b, c),
    ensures
        grown(a, c),
{
    let x = b.facts.skip(a.facts.len() as int);
    let y = c.facts.skip(b.facts.len() as int);
    assert(c.facts.skip(a.facts.len() as int) =~= x + y);
    lemma_deepen_concat(a.depth, x, y);
}

/// What was stored stands where it stood when the store has grown.
pub proof fn lemma_grown_at(a: KbView, b: KbView)
    requires
        grown(a, b),
    ensures
        forall|i: int| 0 <= i < a.facts.len() ==> #[trigger] b.facts[i] == a.facts[i],
        forall|j: int| 0 <= j < a.rules.len() ==> #[trigger] b.rules[j] == a.rules[j],
{
    assert forall|i: int| 0 <= i < a.facts.len() implies #[trigger] b.facts[i] == a.facts[i] by {
        assert(b.facts.subrange(0, a.facts.len() as int)[i] == b.facts[i]);
    }
    assert forall|j: int| 0 <= j < a.rules.len() implies #[trigger] b.rules[j] == a.rules[j] by {
        assert(b.rules.subrange(0, a.rules.len() as int)[j] == b.rules[j]);
    }
}

/// What a store held, it holds when it has grown.
pub proof fn lemma_grown_holds(a: KbView, b: KbView)
    requires
        grown(a, b),
    ensures
        forall|f: FactView| a.has_fact(f) ==> b.has_fact(f),
        forall|r: RuleView| a.has_rule(r) ==> b.has_rule(r),
        forall|f: FactView| a.facts.contains(f) ==> b.facts.contains(f),
        forall|r: RuleView| a.rules.contains(r) ==> b.rules.contains(r),
        forall|f: FactView, r: RuleView| fired(a, f, r) ==> fired(b, f, r),
        forall|f: FactView| derived_fact(a, f) ==> derived_fact(b, f),
        forall|r: RuleView| derived_rule(a, r) ==> derived_rule(b, r),
{
    assert forall|f: FactView| a.has_fact(f) implies b.has_fact(f) by {
        let i = choose|i: int| 0 <= i < a.facts.len() && (#[trigger] a.facts[i]).same_atom(f);
        assert(b.facts[i] == a.facts[i]);
    }
    assert forall|r: RuleView| a.has_rule(r) implies b.has_rule(r) by {
        let i = choose|i: int| 0 <= i < a.rules.len() && (#[trigger] a.rules[i]).same_clause(r);
        assert(b.rules[i] == a.rules[i]);
    }
    assert forall|f: FactView| a.facts.contains(f) implies b.facts.contains(f) by {
        let i = choose|i: int| 0 <= i < a.facts.len() && a.facts[i] == f;
        assert(b.facts[i] == a.facts[i]);
    }
    assert forall|r: RuleView| a.rules.contains(r) implies b.rules.contains(r) by {
        let i = choose|i: int| 0 <= i < a.rules.len() && a.rules[i] == r;
        assert(b.rules[i] == a.rules[i]);
    }
}

/// Deriving twice is deriving. What was new to a later state of the store is
/// new to an earlier one.
pub proof fn lemma_follows_chain(
    base: KbView,
    a: KbView,
    b: KbView,
    c: KbView,
    seed: Option<(FactView, RuleView)>,
    later: KbView,
    pair: Option<(FactView, RuleView)>,
)
    requires
        follows(base, a, b, seed),
        follows(later, b, c, pair),
        grown(base, later),
        pair matches Some(p) ==> seed == Some(p) || !base.facts.contains(p.0)
            || !base.rules.contains(p.1),
    ensures
        follows(base, a, c, seed),
{
    lemma_grown_chain(a, b, c);
    lemma_grown_holds(b, c);
    lemma_grown_holds(base, later);
    lemma_grown_at(b, c);
    assert forall|i: int| a.facts.len() <= i < c.facts.len() implies derived_fact(
        c,
        #[trigger] c.facts[i],
    ) && (fresh(base, c.facts[i].supported_by) || seeded(seed, c.facts[i].supported_by)) by {
        if i < b.facts.len() {
            assert(c.facts[i] == b.facts[i]);
        }
    }
    assert forall|j: int| a.rules.len() <= j < c.rules.len() implies derived_rule(
        c,
        #[trigger] c.rules[j],
    ) && (fresh(base, c.rules[j].supported_by) || seeded(seed, c.rules[j].supported_by)) by {
        if j < b.rules.len() {
            assert(c.rules[j] == b.rules[j]);
        }
    }
}

/// One more pair has fired, and whatever was added on the way has fired with
/// everything: the pairs that are left to fire are one fewer.
pub proof fn lemma_settled_step(
    before: KbView,
    mid: KbView,
    after: KbView,
    facts_from: int,
    facts_to: int,
    rules_from: int,
    rules_to: int,
    by_fact: bool,
)
    requires
        grown(before, mid),
        grown(mid, after),
        settled(mid, after),
        settled_but(before, mid, facts_from, facts_to, rules_from, rules_to),
        0 <= facts_from < facts_to <= mid.facts.len(),
        0 <= rules_from < rules_to <= mid.rules.len(),
        by_fact ==> facts_to == facts_from + 1,
        !by_fact ==> rules_to == rules_from + 1,
        by_fact ==> fired(after, mid.facts[facts_from], mid.rules[rules_from]),
        !by_fact ==> fired(after, mid.facts[facts_from], mid.rules[rules_from]),
    ensures
        by_fact ==> settled_but(
            before,
            after,
            facts_from,
            facts_to,
            rules_from + 1,
            rules_to,
        ),
        !by_fact ==> settled_but(
            before,
            after,
            facts_from + 1,
            facts_to,
            rules_from,
            rules_to,
        ),
{
    lemma_grown_holds(mid, after);
    assert forall|i: int, j: int|
        0 <= i < after.facts.len() && 0 <= j < after.rules.len() implies #[trigger] fired(
        after,
        after.facts[i],
        after.rules[j],
    ) || (i < before.facts.len() && j < before.rules.len()) || (if by_fact {
        facts_from <= i < facts_to && rules_from + 1 <= j < rules_to
    } else {
        facts_from + 1 <= i < facts_to && rules_from <= j < rules_to
    }) by {
        if i < mid.facts.len() && j < mid.rules.len() {
            assert(after.facts[i] == mid.facts[i]);
            assert(after.rules[j] == mid.rules[j]);
            assert(fired(mid, mid.facts[i], mid.rules[j]) || (i < before.facts.len() && j
                < before.rules.len()) || (facts_from <= i < facts_to && rules_from <= j
                < rules_to));
        }
    }
}

/// In a valid store, a statement that stands behind what `before` held is
/// not one that `before` held.
pub proof fn lemma_fresh(before: KbView, after: KbView)
    requires
        grown(before, after),
        after.valid(),
    ensures
        forall|i: int|
            before.facts.len() <= i < after.facts.len() ==> !before.facts.contains(
                #[trigger] after.facts[i],
            ),
        forall|j: int|
            before.rules.len() <= j < after.rules.len() ==> !before.rules.contains(
                #[trigger] after.rules[j],
            ),
{
    lemma_grown_at(before, after);
    assert forall|i: int| before.facts.len() <= i < after.facts.len() implies !before.facts.contains(
        #[trigger] after.facts[i],
    ) by {
        if before.facts.contains(after.facts[i]) {
            let k = choose|k: int| 0 <= k < before.facts.len() && before.facts[k] == after.facts[i];
            assert(after.facts[k] == before.facts[k]);
            assert(!after.facts[k].same_atom(after.facts[i]));
        }
    }
    assert forall|j: int| before.rules.len() <= j < after.rules.len() implies !before.rules.contains(
        #[trigger] after.rules[j],
    ) by {
        if before.rules.contains(after.rules[j]) {
            let k = choose|k: int| 0 <= k < before.rules.len() && before.rules[k] == after.rules[j];
            assert(after.rules[k] == before.rules[k]);
            assert(!after.rules[k].same_clause(after.rules[j]));
        }
    }
}

/// A store that has grown is no smaller.
pub proof fn lemma_follows_len(a: KbView, b: KbView)
    requires
        grown(a, b),
    ensures
        a.facts.len() <= b.facts.len(),
        a.rules.len() <= b.rules.len(),
{
}

/// One round of asserting: a pair has fired, with all that followed from it.
pub proof fn lemma_round(
    before: KbView,
    start: KbView,
    mid: KbView,
    after: KbView,
    facts_from: int,
    facts_to: int,
    rules_from: int,
    rules_to: int,
    by_fact: bool,
)
    requires
        grown(before, mid),
        follows(before, start, mid, None),
        follows(mid, mid, after, Some((mid.facts[facts_from], mid.rules[rules_from]))),
        !before.facts.contains(mid.facts[facts_from]) || !before.rules.contains(
            mid.rules[rules_from],
        ),
        settled(mid, after),
        settled_but(before, mid, facts_from, facts_to, rules_from, rules_to),
        0 <= facts_from < facts_to <= mid.facts.len(),
        0 <= rules_from < rules_to <= mid.rules.len(),
        by_fact ==> facts_to == facts_from + 1,
        !by_fact ==> rules_to == rules_from + 1,
        fired(after, mid.facts[facts_from], mid.rules[rules_from]),
    ensures
        grown(before, after),
        follows(before, start, after, None),
        by_fact ==> settled_but(
            before,
            after,
            facts_from,
            facts_to,
            rules_from + 1,
            rules_to,
        ),
        !by_fact ==> settled_but(
            before,
            after,
            facts_from + 1,
            facts_to,
            rules_from,
            rules_to,
        ),
{
    lemma_follows_chain(
        before,
        start,
        mid,
        after,
        None,
        mid,
        Some((mid.facts[facts_from], mid.rules[rules_from])),
    );
    lemma_grown_chain(before, mid, after);
    lemma_settled_step(
        before,
        mid,
        after,
        facts_from,
        facts_to,
        rules_from,
        rules_to,
        by_fact,
    );
}

impl KnowledgeBase {
    /// Asserts a fact: stores it, then matches it against every rule that is
    /// stored at that moment, and asserts what follows.
    pub fn assert_fact(&mut self, fact: Fact) -> (r: Result<Rc<Fact>, KbError>)
        requires
            old(self).wf(),
        ensures
            final(self).wf(),
            fact_assertion(
                old(self)@,
                final(self)@,
                fact@,
                match r {
                    Ok(stored) => Ok((*stored)@),
                    Err(e) => Err(e),
                },
            ),
        decreases room(old(self)@), 0int,
    {
        let ghost before = self@;
        let ghost f = fact@;
        proof {
            self.lemma_bounded();
        }
        let rc_fact = match self.add_fact(fact) {
            Ok(rc_fact) => rc_fact,
            Err(e) => {
                return Err(e);
            },
        };
        let ghost start = self@;
        let rules = share_rules(self.rules());
        proof {
            self.lemma_bounded();
            lemma_grown_same(start);
            lemma_grown_fact(before, f);
            assert(start.facts[before.facts.len() as int] == f);
        }
        let mut t: usize = 0;
        while t < rules.len()
            invariant
                t <= rules.len(),
                self.wf(),
                before == old(self)@,
                start == before.with_fact(f),
                before.facts.len() < start.facts.len() <= self@.facts.len(),
                before.rules.len() == start.rules.len() <= self@.rules.len(),
                (*rc_fact)@ == f,
                rc_rules_view(rules@) == before.rules,
                follows(before, start, self@, None),
                grown(before, self@),
                settled_but(
                    before,
                    self@,
                    before.facts.len() as int,
                    (before.facts.len() + 1) as int,
                    t as int,
                    before.rules.len() as int,
                ),
                room(self@) < room(before),
                room(self@) >= 0,
            decreases rules.len() - t,
        {
            let ghost mid = self@;
            let rule = &rules[t];
            assert(mid.facts[before.facts.len() as int] == f && mid.rules[t as int] == (**rule)@) by {
                lemma_grown_at(start, mid);
            }
            assert(mid.facts.contains(f));
            assert(mid.rules.contains((**rule)@));
            proof {
                self.lemma_wf_valid();
            }
            self.infer(Rc::clone(&rc_fact), Rc::clone(rule));
            proof {
                self.lemma_bounded();
                lemma_follows_len(mid, self@);
                lemma_fresh(before, mid);
                lemma_round(
                    before,
                    start,
                    mid,
                    self@,
                    before.facts.len() as int,
                    (before.facts.len() + 1) as int,
                    t as int,
                    before.rules.len() as int,
                    true,
                );
            }
            t += 1;
        }
        Ok(rc_fact)
    }

    /// Asserts a rule: stores it, then matches every fact that is stored at
    /// that moment against it, and asserts what follows.
    pub fn assert_rule(&mut self, rule: Rule) -> (r: Result<Rc<Rule>, KbError>)
        requires
            old(self).wf(),
        ensures
            final(self).wf(),
            rule_assertion(
                old(self)@,
                final(self)@,
                rule@,
                match r {
                    Ok(stored) => Ok((*stored)@),
                    Err(e) => Err(e),
                },
            ),
        decreases room(old(self)@), 0int,
    {
        let ghost before = self@;
        let ghost ru = rule@;
        proof {
            self.lemma_bounded();
        }
        let rc_rule = match self.add_rule(rule) {
            Ok(rc_rule) => rc_rule,
            Err(e) => {
                return Err(e);
            },
        };
        let ghost start = self@;
        let facts = share_facts(self.facts());
        proof {
            self.lemma_bounded();
            lemma_grown_same(start);
            lemma_grown_rule(before, ru);
            assert(start.rules[before.rules.len() as int] == ru);
        }
        let mut t: usize = 0;
        while t < facts.len()
            invariant
                t <= facts.len(),
                self.wf(),
                before == old(self)@,
                start == before.with_rule(ru),
                before.rules.len() < start.rules.len() <= self@.rules.len(),
                before.facts.len() == start.facts.len() <= self@.facts.len(),
                (*rc_rule)@ == ru,
                rc_facts_view(facts@) == before.facts,
                follows(before, start, self@, None),
                grown(before, self@),
                settled_but(
                    before,
                    self@,
                    t as int,
                    before.facts.len() as int,
                    before.rules.len() as int,
                    (before.rules.len() + 1) as int,
                ),
                room(self@) < room(before),
                room(self@) >= 0,
            decreases facts.len() - t,
        {
            let ghost mid = self@;
            let fact = &facts[t];
            assert(mid.rules[before.rules.len() as int] == ru && mid.facts[t as int] == (**fact)@) by {
                lemma_grown_at(start, mid);
            }
            assert(mid.rules.contains(ru));
            assert(mid.facts.contains((**fact)@));
            proof {
                self.lemma_wf_valid();
            }
            self.infer(Rc::clone(fact), Rc::clone(&rc_rule));
            proof {
                self.lemma_bounded();
                lemma_follows_len(mid, self@);
                lemma_fresh(before, mid);
                lemma_round(
                    before,
                    start,
                    mid,
                    self@,
                    t as int,
                    before.facts.len() as int,
                    before.rules.len() as int,
                    (before.rules.len() + 1) as int,
                    false,
                );
            }
            t += 1;
        }
        Ok(rc_rule)
    }

    /// One step of forward chaining: matches a stored fact against the first
    /// premise of a stored rule and asserts what follows, if anything does
    /// and it is not stored yet.
    pub fn infer(&mut self, fact: Rc<Fact>, rule: Rc<Rule>)
        requires
            old(self).wf(),
            old(self)@.facts.contains((*fact)@),
            old(self)@.rules.contains((*rule)@),
        ensures
            final(self).wf(),
            follows(old(self)@, old(self)@, final(self)@, Some(((*fact)@, (*rule)@))),
            settled(old(self)@, final(self)@),
            fired(final(self)@, (*fact)@, (*rule)@),
        decreases room(old(self)@), 1int,
    {
        let ghost before = self@;
        let ghost f = (*fact)@;
        let ghost r = (*rule)@;
        proof {
            lemma_grown_same(before);
        }
        if rule.lhs.len() == 0 {
            return ;
        }
        assert(r.lhs[0] == rule.lhs@[0]@);
        let bindings = match try_bind(&fact, &rule.lhs[0]) {
            Ok(bindings) => bindings,
            Err(_) => {
                return ;
            },
        };
        if rule.lhs.len() == 1 {
            let new_fact = apply_bindings(
                &rule.rhs,
                Some((Rc::clone(&fact), Rc::clone(&rule))),
                &bindings,
            );
            let ghost c = new_fact@;
            assert(c.supported_by =~= seq![(f, r)]);
            if !has_var(&new_fact) {
                assert(consequence(f, r) == Some(StatementView::Fact(c)));
                let res = self.assert_fact(new_fact);
                proof {
                    if res.is_ok() {
                        self.lemma_derived_fact_added(before, c);
                        let mid = before.with_fact(c);
                        assert(mid.facts[before.facts.len() as int].same_atom(c));
                        lemma_grown_holds(mid, self@);
                    }
                }
            }
        } else {
            let new_rule = Self::specialise(&fact, &rule, &bindings);
            let ghost c = new_rule@;
            assert(consequence(f, r) == Some(StatementView::Rule(c)));
            let res = self.assert_rule(new_rule);
            proof {
                if res.is_ok() {
                    self.lemma_derived_rule_added(before, c);
                    let mid = before.with_rule(c);
                    assert(mid.rules[before.rules.len() as int].same_clause(c));
                    lemma_grown_holds(mid, self@);
                }
            }
        }
    }

    /// The rule that is left of `rule` when `fact` has matched its first
    /// premise under `bindings`, justified by the two.
    fn specialise(fact: &Rc<Fact>, rule: &Rc<Rule>, bindings: &Bindings) -> (left: Rule)
        requires
            rule.lhs@.len() > 1,
        ensures
            left@ == specialised((**rule)@, bindings@, seq![((**fact)@, (**rule)@)]),
    {
        let ghost r = (**rule)@;
        let mut new_lhs: Vec<Fact> = Vec::new();
        let mut n: usize = 1;
        while n < rule.lhs.len()
            invariant
                1 <= n <= rule.lhs.len(),
                r == (**rule)@,
                new_lhs.len() == n - 1,
                forall|k: int|
                    0 <= k < n - 1 ==> (#[trigger] facts_view(new_lhs@)[k]) == substitute(
                        r.lhs[k + 1],
                        bindings@,
                        Seq::empty(),
                    ),
            decreases rule.lhs.len() - n,
        {
            assert(r.lhs[n as int] == rule.lhs@[n as int]@);
            let ghost so_far = facts_view(new_lhs@);
            let part = apply_bindings(&rule.lhs[n], None, bindings);
            new_lhs.push(part);
            assert forall|k: int| 0 <= k < n implies (#[trigger] facts_view(new_lhs@)[k])
                == substitute(r.lhs[k + 1], bindings@, Seq::empty()) by {
                if k < n - 1 {
                    assert(facts_view(new_lhs@)[k] == so_far[k]);
                }
            }
            n += 1;
        }
        let new_rhs = apply_bindings(&rule.rhs, None, bindings);
        let mut support: Vec<(Rc<Fact>, Rc<Rule>)> = Vec::new();
        support.push((Rc::clone(fact), Rc::clone(rule)));
        let ghost parts = facts_view(new_lhs@);
        let left = Rule::new(new_lhs, new_rhs, support);
        assert(left@.lhs == parts);
        assert(r.lhs.len() == rule.lhs@.len());
        assert forall|k: int| 0 <= k < parts.len() implies parts[k] == specialised(
            r,
            bindings@,
            seq![((**fact)@, r)],
        ).lhs[k] by {
            assert(parts[k] == substitute(r.lhs[k + 1], bindings@, Seq::empty()));
        }
        assert(left@.lhs =~= specialised(r, bindings@, seq![((**fact)@, r)]).lhs);
        assert(left@.supported_by =~= seq![((**fact)@, r)]);
        left
    }

    /// A derived fact was asserted and everything after it is derived: all
    /// that was added is derived.
    proof fn lemma_derived_fact_added(&self, before: KbView, c: FactView)
        requires
            derived_fact(before, c),
            follows(before, before.with_fact(c), self@, None),
        ensures
            follows(before, before, self@, Some(c.supported_by[0])),
    {
        let mid = before.with_fact(c);
        lemma_grown_fact(before, c);
        lemma_grown_chain(before, mid, self@);
        lemma_grown_holds(before, self@);
        lemma_grown_at(mid, self@);
        assert forall|i: int| before.facts.len() <= i < self@.facts.len() implies derived_fact(
            self@,
            #[trigger] self@.facts[i],
        ) && (fresh(before, self@.facts[i].supported_by) || seeded(
            Some(c.supported_by[0]),
            self@.facts[i].supported_by,
        )) by {
            if i == before.facts.len() {
                assert(self@.facts[i] == mid.facts[i]);
            }
        }
    }

    /// A derived rule was asserted and everything after it is derived: all
    /// that was added is derived.
    proof fn lemma_derived_rule_added(&self, before: KbView, c: RuleView)
        requires
            derived_rule(before, c),
            follows(before, before.with_rule(c), self@, None),
        ensures
            follows(before, before, self@, Some(c.supported_by[0])),
    {
        let mid = before.with_rule(c);
        lemma_grown_rule(before, c);
        lemma_grown_chain(before, mid, self@);
        lemma_grown_holds(before, self@);
        lemma_grown_at(mid, self@);
        assert forall|j: int| before.rules.len() <= j < self@.rules.len() implies derived_rule(
            self@,
            #[trigger] self@.rules[j],
        ) && (fresh(before, self@.rules[j].supported_by) || seeded(
            Some(c.supported_by[0]),
            self@.rules[j].supported_by,
        )) by {
            if j == before.rules.len() {
                assert(self@.rules[j] == mid.rules[j]);
            }
        }
    }

    /// Asserts a statement, fact or rule, and hands back the statement as stored.
    pub fn assert_statement<T: Statement>(&mut self, statement: T) -> (r: Result<
        StoredStatement,
        KbError,
    >)
        requires
            old(self).wf(),
        ensures
            final(self).wf(),
            assertion(
                old(self)@,
                final(self)@,
                statement.statement_view(),
                match r {
                    Ok(stored) => Ok(stored.statement_view()),
                    Err(e) => Err(e),
                },
            ),
    {
        match statement.to_fact() {
            Some(fact) => match self.assert_fact(fact) {
                Ok(rc_fact) => Ok(StoredStatement::Fact(rc_fact)),
                Err(e) => Err(e),
            },
            None => match statement.to_rule() {
                Some(rule) => match self.assert_rule(rule) {
                    Ok(rc_rule) => Ok(StoredStatement::Rule(rc_rule)),
                    Err(e) => Err(e),
                },
                None => unreached(),
            },
        }
    }
}

} // verus!
