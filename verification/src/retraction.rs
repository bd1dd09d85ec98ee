//! Retracting: a statement leaves the store, and with it everything whose
//! justification names something that left.

use crate::error::KbError;
use crate::index::rc_facts_view;
use crate::knowledge_base::rc_rules_view;
use crate::knowledge_base::KbView;
use crate::knowledge_base::KnowledgeBase;
use crate::sequences::kept;
use crate::sequences::lemma_kept_chain;
use crate::sequences::lemma_kept_len;
use crate::sequences::lemma_kept_remove;
use crate::sequences::lemma_kept_within;
use crate::statement::names_fact;
use crate::statement::names_root;
use crate::statement::names_rule;
use crate::statement::Fact;
use crate::statement::FactView;
use crate::statement::Rule;
use crate::statement::RuleView;
use crate::statement::Statement;
use crate::statement::StatementView;
use crate::statement::StoredStatement;
use std::rc::Rc;
use vstd::pervasive::unreached;
use vstd::prelude::*;

verus! {

/// The fact was stored before and is stored no more.
pub open spec fn fact_left(before: KbView, after: KbView, f: FactView) -> bool {
    before.facts.contains(f) && !after.facts.contains(f)
}

/// The rule was stored before and is stored no more.
pub open spec fn rule_left(before: KbView, after: KbView, r: RuleView) -> bool {
    before.rules.contains(r) && !after.rules.contains(r)
}

/// The justification names a fact or a rule that left.
pub open spec fn rests_on_what_left(
    support: Seq<(FactView, RuleView)>,
    before: KbView,
    after: KbView,
) -> bool {
    exists|k: int|
        0 <= k < support.len() && (fact_left(before, after, (#[trigger] support[k]).0) || rule_left(
            before,
            after,
            support[k].1,
        ))
}

/// `root` was stored before and is stored no more.
pub open spec fn root_left(before: KbView, after: KbView, root: StatementView) -> bool {
    match root {
        StatementView::Fact(f) => fact_left(before, after, f),
        StatementView::Rule(r) => rule_left(before, after, r),
    }
}

/// What is known while `root` is being retracted: the statements that are
/// still stored are in their old order; `root` has left; a statement that
/// left is `root` or names something that left; and a statement that is still
/// stored names nothing that left, `root` apart.
pub open spec fn cascading(before: KbView, after: KbView, root: StatementView) -> bool {
    &&& after.depth == before.depth
    &&& kept(before.facts, after.facts)
    &&& kept(before.rules, after.rules)
    &&& root_left(before, after, root)
    &&& forall|i: int, k: int|
        0 <= i < after.facts.len() && 0 <= k < after.facts[i].supported_by.len() ==> {
            let pair = #[trigger] after.facts[i].supported_by[k];
            &&& fact_left(before, after, pair.0) ==> root == StatementView::Fact(pair.0)
            &&& rule_left(before, after, pair.1) ==> root == StatementView::Rule(pair.1)
        }
    &&& forall|i: int, k: int|
        0 <= i < after.rules.len() && 0 <= k < after.rules[i].supported_by.len() ==> {
            let pair = #[trigger] after.rules[i].supported_by[k];
            &&& fact_left(before, after, pair.0) ==> root == StatementView::Fact(pair.0)
            &&& rule_left(before, after, pair.1) ==> root == StatementView::Rule(pair.1)
        }
    &&& forall|i: int|
        0 <= i < before.facts.len() && !after.facts.contains(#[trigger] before.facts[i]) ==> root
            == StatementView::Fact(before.facts[i]) || rests_on_what_left(
            before.facts[i].supported_by,
            before,
            after,
        )
    &&& forall|i: int|
        0 <= i < before.rules.len() && !after.rules.contains(#[trigger] before.rules[i]) ==> root
            == StatementView::Rule(before.rules[i]) || rests_on_what_left(
            before.rules[i].supported_by,
            before,
            after,
        )
}

/// What retracting `root` makes of the store. The statements that stay keep
/// their order, and the indexes keep their depths. `root` leaves. Whatever
/// names something that left leaves too. Nothing else leaves: a statement
/// that left is `root` or names something that left.
pub open spec fn pruned(before: KbView, after: KbView, root: StatementView) -> bool {
    &&& after.depth == before.depth
    &&& kept(before.facts, after.facts)
    &&& kept(before.rules, after.rules)
    &&& root_left(before, after, root)
    &&& forall|i: int|
        0 <= i < after.facts.len() ==> !rests_on_what_left(
            (#[trigger] after.facts[i]).supported_by,
            before,
            after,
        )
    &&& forall|i: int|
        0 <= i < after.rules.len() ==> !rests_on_what_left(
            (#[trigger] after.rules[i]).supported_by,
            before,
            after,
        )
    &&& forall|i: int|
        0 <= i < before.facts.len() && !after.facts.contains(#[trigger] before.facts[i]) ==> root
            == StatementView::Fact(before.facts[i]) || rests_on_what_left(
            before.facts[i].supported_by,
            before,
            after,
        )
    &&& forall|i: int|
        0 <= i < before.rules.len() && !after.rules.contains(#[trigger] before.rules[i]) ==> root
            == StatementView::Rule(before.rules[i]) || rests_on_what_left(
            before.rules[i].supported_by,
            before,
            after,
        )
}

/// No stored statement names `root`.
pub open spec fn nothing_names(kb: KbView, root: StatementView) -> bool {
    &&& forall|i: int|
        0 <= i < kb.facts.len() ==> !names_root((#[trigger] kb.facts[i]).supported_by, root)
    &&& forall|i: int|
        0 <= i < kb.rules.len() ==> !names_root((#[trigger] kb.rules[i]).supported_by, root)
}

/// What removing a fact does: it fails on a fact with a variable and on a
/// fact that is not stored with this very justification, and leaves the store
/// as it was; otherwise it prunes the store of the fact.
pub open spec fn fact_removal(
    before: KbView,
    after: KbView,
    f: FactView,
    r: Result<(), KbError>,
) -> bool {
    if !f.ground() {
        r == Err::<(), KbError>(KbError::GroundnessViolation) && after == before
    } else if !before.facts.contains(f) {
        r == Err::<(), KbError>(KbError::NotFound) && after == before
    } else {
        r == Ok::<(), KbError>(()) && pruned(before, after, StatementView::Fact(f))
    }
}

/// What removing a rule does: it fails on a rule that is not stored with this
/// very justification, and leaves the store as it was; otherwise it prunes
/// the store of the rule.
pub open spec fn rule_removal(
    before: KbView,
    after: KbView,
    ru: RuleView,
    r: Result<(), KbError>,
) -> bool {
    if !before.rules.contains(ru) {
        r == Err::<(), KbError>(KbError::NotFound) && after == before
    } else {
        r == Ok::<(), KbError>(()) && pruned(before, after, StatementView::Rule(ru))
    }
}

/// What retracting does: a statement with a justification cannot be
/// retracted; one without is removed.
pub open spec fn retraction(
    before: KbView,
    after: KbView,
    root: StatementView,
    r: Result<(), KbError>,
) -> bool {
    match root {
        StatementView::Fact(f) => if f.supported_by.len() > 0 {
            r == Err::<(), KbError>(KbError::Unsupportable) && after == before
        } else {
            fact_removal(before, after, f, r)
        },
        StatementView::Rule(ru) => if ru.supported_by.len() > 0 {
            r == Err::<(), KbError>(KbError::Unsupportable) && after == before
        } else {
            rule_removal(before, after, ru, r)
        },
    }
}

/// In a valid store no fact stands twice.
pub proof fn lemma_facts_distinct(kb: KbView)
    requires
        kb.valid(),
    ensures
        kb.facts.no_duplicates(),
        kb.rules.no_duplicates(),
{
    assert forall|a: int, b: int|
        0 <= a < kb.facts.len() && 0 <= b < kb.facts.len() && a != b implies kb.facts[a]
        != kb.facts[b] by {
        if a < b {
            assert(!kb.facts[a].same_atom(kb.facts[b]));
        } else {
            assert(!kb.facts[b].same_atom(kb.facts[a]));
        }
    }
    assert forall|a: int, b: int|
        0 <= a < kb.rules.len() && 0 <= b < kb.rules.len() && a != b implies kb.rules[a]
        != kb.rules[b] by {
        if a < b {
            assert(!kb.rules[a].same_clause(kb.rules[b]));
        } else {
            assert(!kb.rules[b].same_clause(kb.rules[a]));
        }
    }
}

/// Taking the fact at `i` out starts the retraction of that fact.
proof fn lemma_fact_taken(before: KbView, i: int)
    requires
        before.valid(),
        0 <= i < before.facts.len(),
    ensures
        cascading(before, before.without_fact(i), StatementView::Fact(before.facts[i])),
{
    let after = before.without_fact(i);
    let root = StatementView::Fact(before.facts[i]);
    lemma_facts_distinct(before);
    lemma_kept_remove(before.facts, i);
    crate::sequences::lemma_kept_all(before.rules);
    assert forall|f: FactView| fact_left(before, after, f) implies f == before.facts[i] by {
        let m = choose|m: int| 0 <= m < before.facts.len() && before.facts[m] == f;
        if m != i {
            let k = if m < i { m } else { m - 1 };
            assert(after.facts[k] == f);
        }
    }
    assert forall|x: int|
        0 <= x < before.facts.len() && !after.facts.contains(
            #[trigger] before.facts[x],
        ) implies root == StatementView::Fact(before.facts[x]) by {
        if x != i {
            let k = if x < i { x } else { x - 1 };
            assert(after.facts[k] == before.facts[x]);
        }
    }
    assert forall|x: int|
        0 <= x < before.rules.len() implies after.rules.contains(#[trigger] before.rules[x]) by {
        assert(after.rules[x] == before.rules[x]);
    }
}

/// Taking the rule at `i` out starts the retraction of that rule.
proof fn lemma_rule_taken(before: KbView, i: int)
    requires
        before.valid(),
        0 <= i < before.rules.len(),
    ensures
        cascading(before, before.without_rule(i), StatementView::Rule(before.rules[i])),
{
    let after = before.without_rule(i);
    let root = StatementView::Rule(before.rules[i]);
    lemma_facts_distinct(before);
    lemma_kept_remove(before.rules, i);
    crate::sequences::lemma_kept_all(before.facts);
    assert forall|r: RuleView| rule_left(before, after, r) implies r == before.rules[i] by {
        let m = choose|m: int| 0 <= m < before.rules.len() && before.rules[m] == r;
        if m != i {
            let k = if m < i { m } else { m - 1 };
            assert(after.rules[k] == r);
        }
    }
    assert forall|x: int|
        0 <= x < before.rules.len() && !after.rules.contains(
            #[trigger] before.rules[x],
        ) implies root == StatementView::Rule(before.rules[x]) by {
        if x != i {
            let k = if x < i { x } else { x - 1 };
            assert(after.rules[k] == before.rules[x]);
        }
    }
    assert forall|x: int|
        0 <= x < before.facts.len() implies after.facts.contains(#[trigger] before.facts[x]) by {
        assert(after.facts[x] == before.facts[x]);
    }
}

/// What left between `before` and `mid`, or between `mid` and `after`, left
/// between `before` and `after`, and nothing else did.
proof fn lemma_left_splits(before: KbView, mid: KbView, after: KbView)
    requires
        kept(before.facts, mid.facts),
        kept(before.rules, mid.rules),
        kept(mid.facts, after.facts),
        kept(mid.rules, after.rules),
    ensures
        forall|f: FactView| #[trigger]
            fact_left(before, after, f) <==> fact_left(before, mid, f) || fact_left(mid, after, f),
        forall|r: RuleView| #[trigger]
            rule_left(before, after, r) <==> rule_left(before, mid, r) || rule_left(mid, after, r),
{
    assert forall|f: FactView| #[trigger]
        fact_left(before, after, f) <==> fact_left(before, mid, f) || fact_left(
            mid,
            after,
            f,
        ) by {
        if after.facts.contains(f) {
            lemma_kept_within(mid.facts, after.facts, f);
        }
        if mid.facts.contains(f) {
            lemma_kept_within(before.facts, mid.facts, f);
        }
    }
    assert forall|r: RuleView| #[trigger]
        rule_left(before, after, r) <==> rule_left(before, mid, r) || rule_left(
            mid,
            after,
            r,
        ) by {
        if after.rules.contains(r) {
            lemma_kept_within(mid.rules, after.rules, r);
        }
        if mid.rules.contains(r) {
            lemma_kept_within(before.rules, mid.rules, r);
        }
    }
}

/// While `root` is being retracted, a stored statement that names `root` is
/// removed with all that hangs on it: the retraction of `root` goes on.
proof fn lemma_cascade_step(
    before: KbView,
    mid: KbView,
    after: KbView,
    root: StatementView,
    next: StatementView,
)
    requires
        cascading(before, mid, root),
        pruned(mid, after, next),
        match next {
            StatementView::Fact(f) => names_root(f.supported_by, root),
            StatementView::Rule(r) => names_root(r.supported_by, root),
        },
    ensures
        cascading(before, after, root),
{
    lemma_kept_chain(before.facts, mid.facts, after.facts);
    lemma_kept_chain(before.rules, mid.rules, after.rules);
    lemma_left_splits(before, mid, after);
    assert(root_left(before, after, root));
    assert forall|i: int, k: int|
        0 <= i < after.facts.len() && 0 <= k < after.facts[i].supported_by.len() implies {
        let pair = #[trigger] after.facts[i].supported_by[k];
        &&& fact_left(before, after, pair.0) ==> root == StatementView::Fact(pair.0)
        &&& rule_left(before, after, pair.1) ==> root == StatementView::Rule(pair.1)
    } by {
        let x = after.facts[i];
        assert(after.facts.contains(x));
        lemma_kept_within(mid.facts, after.facts, x);
        let m = choose|m: int| 0 <= m < mid.facts.len() && mid.facts[m] == x;
        assert(!rests_on_what_left(x.supported_by, mid, after));
    }
    assert forall|i: int, k: int|
        0 <= i < after.rules.len() && 0 <= k < after.rules[i].supported_by.len() implies {
        let pair = #[trigger] after.rules[i].supported_by[k];
        &&& fact_left(before, after, pair.0) ==> root == StatementView::Fact(pair.0)
        &&& rule_left(before, after, pair.1) ==> root == StatementView::Rule(pair.1)
    } by {
        let x = after.rules[i];
        assert(after.rules.contains(x));
        lemma_kept_within(mid.rules, after.rules, x);
        let m = choose|m: int| 0 <= m < mid.rules.len() && mid.rules[m] == x;
        assert(!rests_on_what_left(x.supported_by, mid, after));
    }
    assert forall|i: int|
        0 <= i < before.facts.len() && !after.facts.contains(
            #[trigger] before.facts[i],
        ) implies root == StatementView::Fact(before.facts[i]) || rests_on_what_left(
        before.facts[i].supported_by,
        before,
        after,
    ) by {
        let x = before.facts[i];
        lemma_still_rests(before, mid, after, root, next, x.supported_by);
        if mid.facts.contains(x) {
            let m = choose|m: int| 0 <= m < mid.facts.len() && mid.facts[m] == x;
            assert(!after.facts.contains(mid.facts[m]));
        }
    }
    assert forall|i: int|
        0 <= i < before.rules.len() && !after.rules.contains(
            #[trigger] before.rules[i],
        ) implies root == StatementView::Rule(before.rules[i]) || rests_on_what_left(
        before.rules[i].supported_by,
        before,
        after,
    ) by {
        let x = before.rules[i];
        lemma_still_rests(before, mid, after, root, next, x.supported_by);
        if mid.rules.contains(x) {
            let m = choose|m: int| 0 <= m < mid.rules.len() && mid.rules[m] == x;
            assert(!after.rules.contains(mid.rules[m]));
        }
    }
}

/// A justification that names what left earlier, or what left later, or
/// `root`, names what left in all.
proof fn lemma_still_rests(
    before: KbView,
    mid: KbView,
    after: KbView,
    root: StatementView,
    next: StatementView,
    support: Seq<(FactView, RuleView)>,
)
    requires
        kept(before.facts, mid.facts),
        kept(before.rules, mid.rules),
        kept(mid.facts, after.facts),
        kept(mid.rules, after.rules),
        root_left(before, mid, root),
    ensures
        rests_on_what_left(support, before, mid) ==> rests_on_what_left(support, before, after),
        rests_on_what_left(support, mid, after) ==> rests_on_what_left(support, before, after),
        names_root(support, root) ==> rests_on_what_left(support, before, after),
{
    lemma_left_splits(before, mid, after);
    if rests_on_what_left(support, before, mid) {
        let k = choose|k: int|
            0 <= k < support.len() && (fact_left(before, mid, (#[trigger] support[k]).0)
                || rule_left(before, mid, support[k].1));
        assert(fact_left(before, after, support[k].0) || rule_left(before, after, support[k].1));
    }
    if rests_on_what_left(support, mid, after) {
        let k = choose|k: int|
            0 <= k < support.len() && (fact_left(mid, after, (#[trigger] support[k]).0)
                || rule_left(mid, after, support[k].1));
        assert(fact_left(before, after, support[k].0) || rule_left(before, after, support[k].1));
    }
    if names_root(support, root) {
        match root {
            StatementView::Fact(f) => {
                let k = choose|k: int| 0 <= k < support.len() && (#[trigger] support[k]).0 == f;
                assert(fact_left(before, after, support[k].0));
            },
            StatementView::Rule(r) => {
                let k = choose|k: int| 0 <= k < support.len() && (#[trigger] support[k]).1 == r;
                assert(rule_left(before, after, support[k].1));
            },
        }
    }
}

/// When no stored statement names `root` any more, the retraction of `root` is done.
proof fn lemma_cascade_done(before: KbView, after: KbView, root: StatementView)
    requires
        cascading(before, after, root),
        nothing_names(after, root),
    ensures
        pruned(before, after, root),
{
    assert forall|i: int| 0 <= i < after.facts.len() implies !rests_on_what_left(
        (#[trigger] after.facts[i]).supported_by,
        before,
        after,
    ) by {
        let support = after.facts[i].supported_by;
        if rests_on_what_left(support, before, after) {
            let k = choose|k: int|
                0 <= k < support.len() && (fact_left(before, after, (#[trigger] support[k]).0)
                    || rule_left(before, after, support[k].1));
            let pair = after.facts[i].supported_by[k];
            assert(names_root(support, root));
        }
    }
    assert forall|i: int| 0 <= i < after.rules.len() implies !rests_on_what_left(
        (#[trigger] after.rules[i]).supported_by,
        before,
        after,
    ) by {
        let support = after.rules[i].supported_by;
        if rests_on_what_left(support, before, after) {
            let k = choose|k: int|
                0 <= k < support.len() && (fact_left(before, after, (#[trigger] support[k]).0)
                    || rule_left(before, after, support[k].1));
            let pair = after.rules[i].supported_by[k];
            assert(names_root(support, root));
        }
    }
}

/// A copy of a list of shared facts: it shares them too.
pub fn share_facts(v: &Vec<Rc<Fact>>) -> (r: Vec<Rc<Fact>>)
    ensures
        rc_facts_view(r@) == rc_facts_view(v@),
{
    let mut out: Vec<Rc<Fact>> = Vec::new();
    let mut i: usize = 0;
    while i < v.len()
        invariant
            i <= v.len(),
            out.len() == i,
            forall|k: int| 0 <= k < i ==> (*out@[k])@ == (*v@[k])@,
        decreases v.len() - i,
    {
        out.push(Rc::clone(&v[i]));
        i += 1;
    }
    assert(rc_facts_view(out@) =~= rc_facts_view(v@));
    out
}

/// A copy of a list of shared rules: it shares them too.
pub fn share_rules(v: &Vec<Rc<Rule>>) -> (r: Vec<Rc<Rule>>)
    ensures
        rc_rules_view(r@) == rc_rules_view(v@),
{
    let mut out: Vec<Rc<Rule>> = Vec::new();
    let mut i: usize = 0;
    while i < v.len()
        invariant
            i <= v.len(),
            out.len() == i,
            forall|k: int| 0 <= k < i ==> (*out@[k])@ == (*v@[k])@,
        decreases v.len() - i,
    {
        out.push(Rc::clone(&v[i]));
        i += 1;
    }
    assert(rc_rules_view(out@) =~= rc_rules_view(v@));
    out
}

impl KnowledgeBase {
    /// Removes the stored fact that equals `fact`, justification included, and
    /// then every stored statement whose justification names something removed.
    pub fn remove_fact(&mut self, fact: &Fact) -> (r: Result<(), KbError>)
        requires
            old(self).wf(),
        ensures
            final(self).wf(),
            fact_removal(old(self)@, final(self)@, fact@, r),
        decreases old(self)@.facts.len() + old(self)@.rules.len(), 1int,
    {
        if fact.contains_variable() {
            return Err(KbError::GroundnessViolation);
        }
        let at = match self.find_fact(fact) {
            Some(at) => at,
            None => {
                return Err(KbError::NotFound);
            },
        };
        let ghost before = self@;
        let ghost root = StatementView::Fact(fact@);
        proof {
            self.lemma_wf_valid();
            lemma_fact_taken(before, at as int);
        }
        let fact_reference = self.take_fact(at);
        self.cascade(&StoredStatement::Fact(fact_reference), Ghost(before), Ghost(root));
        Ok(())
    }

    /// Removes the stored rule that equals `rule`, justification included, and
    /// then every stored statement whose justification names something removed.
    pub fn remove_rule(&mut self, rule: &Rule) -> (r: Result<(), KbError>)
        requires
            old(self).wf(),
        ensures
            final(self).wf(),
            rule_removal(old(self)@, final(self)@, rule@, r),
        decreases old(self)@.facts.len() + old(self)@.rules.len(), 1int,
    {
        let at = match self.find_rule(rule) {
            Some(at) => at,
            None => {
                return Err(KbError::NotFound);
            },
        };
        let ghost before = self@;
        let ghost root = StatementView::Rule(rule@);
        proof {
            self.lemma_wf_valid();
            lemma_rule_taken(before, at as int);
        }
        let rule_reference = self.take_rule(at);
        self.cascade(&StoredStatement::Rule(rule_reference), Ghost(before), Ghost(root));
        Ok(())
    }

    /// Removes every stored statement whose justification names `root`, each
    /// with all that hangs on it: first the facts, then the rules.
    fn cascade(
        &mut self,
        root: &StoredStatement,
        Ghost(before): Ghost<KbView>,
        Ghost(gone): Ghost<StatementView>,
    )
        requires
            old(self).wf(),
            cascading(before, old(self)@, gone),
            root.statement_view() == gone,
            old(self)@.facts.len() + old(self)@.rules.len() < before.facts.len()
                + before.rules.len(),
        ensures
            final(self).wf(),
            pruned(before, final(self)@, gone),
        decreases before.facts.len() + before.rules.len(), 0int,
    {
        let ghost total = before.facts.len() + before.rules.len();
        let facts = share_facts(self.facts());
        let ghost listed = self@.facts;
        proof {
            self.lemma_wf_valid();
            crate::sequences::lemma_kept_all(listed);
        }
        let mut t: usize = 0;
        while t < facts.len()
            invariant
                t <= facts.len(),
                self.wf(),
                cascading(before, self@, gone),
                root.statement_view() == gone,
                rc_facts_view(facts@) == listed,
                kept(listed, self@.facts),
                forall|k: int| 0 <= k < listed.len() ==> (#[trigger] listed[k]).ground(),
                self@.facts.len() + self@.rules.len() < total,
                total == before.facts.len() + before.rules.len(),
                forall|k: int|
                    0 <= k < t && names_root((#[trigger] listed[k]).supported_by, gone)
                        ==> !self@.facts.contains(listed[k]),
            decreases facts.len() - t,
        {
            let f = &facts[t];
            assert((**f)@ == listed[t as int]);
            if root.named_by(&f.supported_by) {
                let ghost mid = self@;
                let res = self.remove_fact(f);
                proof {
                    assert(listed[t as int].ground());
                    if res.is_ok() {
                        lemma_cascade_step(before, mid, self@, gone, StatementView::Fact((**f)@));
                        lemma_kept_chain(listed, mid.facts, self@.facts);
                        lemma_kept_len(mid.facts, self@.facts);
                        lemma_kept_len(mid.rules, self@.rules);
                        assert forall|k: int|
                            0 <= k < t && names_root((#[trigger] listed[k]).supported_by, gone)
                            implies !self@.facts.contains(listed[k]) by {
                            if self@.facts.contains(listed[k]) {
                                lemma_kept_within(mid.facts, self@.facts, listed[k]);
                            }
                        }
                    }
                }
            }
            t += 1;
        }
        let rules = share_rules(self.rules());
        let ghost listed_rules = self@.rules;
        proof {
            crate::sequences::lemma_kept_all(listed_rules);
        }
        let mut u: usize = 0;
        while u < rules.len()
            invariant
                u <= rules.len(),
                self.wf(),
                cascading(before, self@, gone),
                root.statement_view() == gone,
                rc_rules_view(rules@) == listed_rules,
                kept(listed_rules, self@.rules),
                kept(listed, self@.facts),
                self@.facts.len() + self@.rules.len() < total,
                total == before.facts.len() + before.rules.len(),
                forall|k: int|
                    0 <= k < listed.len() && names_root((#[trigger] listed[k]).supported_by, gone)
                        ==> !self@.facts.contains(listed[k]),
                forall|k: int|
                    0 <= k < u && names_root((#[trigger] listed_rules[k]).supported_by, gone)
                        ==> !self@.rules.contains(listed_rules[k]),
            decreases rules.len() - u,
        {
            let r = &rules[u];
            assert((**r)@ == listed_rules[u as int]);
            if root.named_by(&r.supported_by) {
                let ghost mid = self@;
                let res = self.remove_rule(r);
                proof {
                    if res.is_ok() {
                        lemma_cascade_step(before, mid, self@, gone, StatementView::Rule((**r)@));
                        lemma_kept_chain(listed, mid.facts, self@.facts);
                        lemma_kept_chain(listed_rules, mid.rules, self@.rules);
                        lemma_kept_len(mid.facts, self@.facts);
                        lemma_kept_len(mid.rules, self@.rules);
                        assert forall|k: int|
                            0 <= k < listed.len() && names_root(
                                (#[trigger] listed[k]).supported_by,
                                gone,
                            ) implies !self@.facts.contains(listed[k]) by {
                            if self@.facts.contains(listed[k]) {
                                lemma_kept_within(mid.facts, self@.facts, listed[k]);
                            }
                        }
                        assert forall|k: int|
                            0 <= k < u && names_root(
                                (#[trigger] listed_rules[k]).supported_by,
                                gone,
                            ) implies !self@.rules.contains(listed_rules[k]) by {
                            if self@.rules.contains(listed_rules[k]) {
                                lemma_kept_within(mid.rules, self@.rules, listed_rules[k]);
                            }
                        }
                    }
                }
            }
            u += 1;
        }
        proof {
            let after = self@;
            assert forall|i: int| 0 <= i < after.facts.len() implies !names_root(
                (#[trigger] after.facts[i]).supported_by,
                gone,
            ) by {
                assert(after.facts.contains(after.facts[i]));
                lemma_kept_within(listed, after.facts, after.facts[i]);
                let k = choose|k: int| 0 <= k < listed.len() && listed[k] == after.facts[i];
                assert(listed[k] == after.facts[i]);
            }
            assert forall|i: int| 0 <= i < after.rules.len() implies !names_root(
                (#[trigger] after.rules[i]).supported_by,
                gone,
            ) by {
                assert(after.rules.contains(after.rules[i]));
                lemma_kept_within(listed_rules, after.rules, after.rules[i]);
                let k = choose|k: int|
                    0 <= k < listed_rules.len() && listed_rules[k] == after.rules[i];
                assert(listed_rules[k] == after.rules[i]);
            }
            lemma_cascade_done(before, after, gone);
        }
    }

    /// Takes a statement back. A statement with a justification cannot be
    /// taken back: what justifies it must be. Taking a statement back removes
    /// it, and with it every statement whose justification names something removed.
    pub fn retract<T: Statement>(&mut self, statement: T) -> (r: Result<(), KbError>)
        requires
            old(self).wf(),
        ensures
            final(self).wf(),
            retraction(old(self)@, final(self)@, statement.statement_view(), r),
    {
        match statement.to_fact() {
            Some(fact) => {
                if fact.supported_by.len() == 0 {
                    self.remove_fact(&fact)
                } else {
                    Err(KbError::Unsupportable)
                }
            },
            None => match statement.to_rule() {
                Some(rule) => {
                    if rule.supported_by.len() == 0 {
                        self.remove_rule(&rule)
                    } else {
                        Err(KbError::Unsupportable)
                    }
                },
                None => unreached(),
            },
        }
    }
}

} // verus!
