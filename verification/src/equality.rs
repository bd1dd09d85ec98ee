//! When two stores are the same store: they hold the same facts and the same
//! rules, justifications included, in the same order.

use crate::index::rc_facts_view;
use crate::knowledge_base::rc_rules_view;
use crate::knowledge_base::KnowledgeBase;
use crate::statement::same_fact;
use crate::statement::same_rule;
use crate::statement::Fact;
use crate::statement::Rule;
use std::rc::Rc;
use vstd::prelude::*;
use vstd::std_specs::cmp::PartialEqSpecImpl;

verus! {

/// Whether two lists share equal facts in the same order.
pub fn same_shared_facts(a: &Vec<Rc<Fact>>, b: &Vec<Rc<Fact>>) -> (r: bool)
    ensures
        r == (rc_facts_view(a@) == rc_facts_view(b@)),
{
    if a.len() != b.len() {
        assert(rc_facts_view(a@).len() != rc_facts_view(b@).len());
        return false;
    }
    let mut i: usize = 0;
    while i < a.len()
        invariant
            i <= a.len(),
            a.len() == b.len(),
            forall|k: int| 0 <= k < i ==> rc_facts_view(a@)[k] == rc_facts_view(b@)[k],
        decreases a.len() - i,
    {
        if !same_fact(&a[i], &b[i]) {
            assert(rc_facts_view(a@)[i as int] != rc_facts_view(b@)[i as int]);
            return false;
        }
        i += 1;
    }
    assert(rc_facts_view(a@) =~= rc_facts_view(b@));
    true
}

/// Whether two lists share equal rules in the same order.
pub fn same_shared_rules(a: &Vec<Rc<Rule>>, b: &Vec<Rc<Rule>>) -> (r: bool)
    ensures
        r == (rc_rules_view(a@) == rc_rules_view(b@)),
{
    if a.len() != b.len() {
        assert(rc_rules_view(a@).len() != rc_rules_view(b@).len());
        return false;
    }
    let mut i: usize = 0;
    while i < a.len()
        invariant
            i <= a.len(),
            a.len() == b.len(),
            forall|k: int| 0 <= k < i ==> rc_rules_view(a@)[k] == rc_rules_view(b@)[k],
        decreases a.len() - i,
    {
        if !same_rule(&a[i], &b[i]) {
            assert(rc_rules_view(a@)[i as int] != rc_rules_view(b@)[i as int]);
            return false;
        }
        i += 1;
    }
    assert(rc_rules_view(a@) =~= rc_rules_view(b@));
    true
}

impl PartialEq for KnowledgeBase {
    fn eq(&self, other: &KnowledgeBase) -> (r: bool) {
        same_shared_facts(self.facts(), other.facts()) && same_shared_rules(
            self.rules(),
            other.rules(),
        )
    }
}

impl PartialEqSpecImpl for KnowledgeBase {
    open spec fn obeys_eq_spec() -> bool {
        true
    }

    open spec fn eq_spec(&self, other: &KnowledgeBase) -> bool {
        self@.facts == other@.facts && self@.rules == other@.rules
    }
}

} // verus!
