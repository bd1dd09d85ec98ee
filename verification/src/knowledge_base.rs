//! The store: the facts with their index, the rules, and the symbol table.
//! This file holds what keeps the store and reads it; asserting and retracting
//! are built on it.

use crate::error::KbError;
use crate::index::matching;
use crate::index::rc_facts_view;
use crate::index::PredicateIndex;
use crate::parser::fact_at;
use crate::parser::parse_fact;
use crate::parser::parse_rule;
use crate::parser::rule_at;
use crate::parser::Scan;
use crate::statement::same_fact;
use crate::statement::same_rule;
use crate::statement::Fact;
use crate::statement::FactView;
use crate::statement::Rule;
use crate::statement::RuleView;
use crate::symbols::is_variable_name;
use crate::symbols::Sym;
use crate::symbols::Symbol;
use crate::symbols::SymbolTable;
use crate::unify::apply_bindings;
use crate::unify::has_var;
use crate::unify::substitute;
use crate::unify::support_of;
use crate::unify::try_bind;
use crate::unify::unify;
use crate::unify::Bindings;
use std::collections::HashMap;
use std::rc::Rc;
use vstd::prelude::*;
use vstd::string::StringSliceAdditionalSpecFns;

verus! {

/// The rules behind a list of shared rules.
pub open spec fn rc_rules_view(v: Seq<Rc<Rule>>) -> Seq<RuleView> {
    Seq::new(v.len(), |i: int| (*v[i])@)
}

/// The positions among the first `n` arguments that hold a variable, in order.
pub open spec fn var_positions(args: Seq<Sym>, n: nat) -> Seq<int>
    decreases n,
{
    if n == 0 {
        Seq::empty()
    } else if args[n - 1].var {
        var_positions(args, (n - 1) as nat).push(n - 1)
    } else {
        var_positions(args, (n - 1) as nat)
    }
}

/// What a fact answers to a pattern: each variable of the pattern, from left
/// to right, with the symbol that the fact holds in its place.
pub open spec fn binding_list(pattern: FactView, f: FactView) -> Seq<(Sym, Sym)> {
    var_positions(pattern.args, pattern.args.len()).map_values(
        |i: int| (pattern.args[i], f.args[i]),
    )
}

/// A list of pairs of symbols, as the logic sees it.
pub open spec fn pairs_view(v: Seq<(Symbol, Symbol)>) -> Seq<(Sym, Sym)> {
    Seq::new(v.len(), |i: int| (v[i].0@, v[i].1@))
}

/// The answers to a query, as the logic sees them.
pub open spec fn answers_view(v: Seq<Vec<(Symbol, Symbol)>>) -> Seq<Seq<(Sym, Sym)>> {
    Seq::new(v.len(), |i: int| pairs_view(v[i]@))
}

/// The depths of the indexes once `f` is stored: the first fact of a predicate
/// that has arguments decides how many columns the predicate's index has.
pub open spec fn deepen_one(depth: Map<Sym, nat>, f: FactView) -> Map<Sym, nat> {
    if depth.contains_key(f.pred) && depth[f.pred] > 0 {
        depth
    } else {
        depth.insert(f.pred, f.args.len())
    }
}

/// The depths of the indexes once the facts of `fs` are stored, in order.
pub open spec fn deepen(depth: Map<Sym, nat>, fs: Seq<FactView>) -> Map<Sym, nat>
    decreases fs.len(),
{
    if fs.len() == 0 {
        depth
    } else {
        deepen_one(deepen(depth, fs.drop_last()), fs.last())
    }
}

/// The store as the logic sees it.
pub ghost struct KbView {
    /// The stored facts, oldest first.
    pub facts: Seq<FactView>,
    /// The stored rules, oldest first.
    pub rules: Seq<RuleView>,
    /// For each predicate that has an index, the number of its columns.
    pub depth: Map<Sym, nat>,
}

impl KbView {
    /// A fact with this predicate and these arguments is stored.
    pub open spec fn has_fact(self, f: FactView) -> bool {
        exists|i: int| 0 <= i < self.facts.len() && (#[trigger] self.facts[i]).same_atom(f)
    }

    /// A rule with these premises and this conclusion is stored.
    pub open spec fn has_rule(self, r: RuleView) -> bool {
        exists|i: int| 0 <= i < self.rules.len() && (#[trigger] self.rules[i]).same_clause(r)
    }

    /// The number of columns in the index of `pred`: the number of arguments
    /// of the first fact of `pred` that had any, and zero before that.
    pub open spec fn depth_of(self, pred: Sym) -> nat {
        if self.depth.contains_key(pred) {
            self.depth[pred]
        } else {
            0
        }
    }

    /// Stored facts are ground; no two have the same predicate and arguments;
    /// no two stored rules have the same premises and conclusion.
    pub open spec fn valid(self) -> bool {
        &&& forall|i: int| 0 <= i < self.facts.len() ==> (#[trigger] self.facts[i]).ground()
        &&& forall|i: int, j: int|
            0 <= i < j < self.facts.len() ==> !(#[trigger] self.facts[i]).same_atom(
                #[trigger] self.facts[j],
            )
        &&& forall|i: int, j: int|
            0 <= i < j < self.rules.len() ==> !(#[trigger] self.rules[i]).same_clause(
                #[trigger] self.rules[j],
            )
    }

    /// The store with one more fact.
    pub open spec fn with_fact(self, f: FactView) -> KbView {
        KbView {
            facts: self.facts.push(f),
            rules: self.rules,
            depth: deepen_one(self.depth, f),
        }
    }

    /// The store with one more rule.
    pub open spec fn with_rule(self, r: RuleView) -> KbView {
        KbView { facts: self.facts, rules: self.rules.push(r), depth: self.depth }
    }

    /// The store without the fact at `i`.
    pub open spec fn without_fact(self, i: int) -> KbView {
        KbView { facts: self.facts.remove(i), rules: self.rules, depth: self.depth }
    }

    /// The store without the rule at `i`.
    pub open spec fn without_rule(self, i: int) -> KbView {
        KbView { facts: self.facts, rules: self.rules.remove(i), depth: self.depth }
    }

    /// The stored facts that answer `pattern`, oldest first.
    pub open spec fn matches(self, pattern: FactView) -> Seq<FactView> {
        self.facts.filter(matching(pattern, self.depth_of(pattern.pred)))
    }

    /// The answers to `pattern`: one list of bindings for each stored fact that answers it.
    pub open spec fn answers(self, pattern: FactView) -> Seq<Seq<(Sym, Sym)>> {
        self.matches(pattern).map_values(|f: FactView| binding_list(pattern, f))
    }
}

/// A store of facts and rules that answers questions and queries.
pub struct KnowledgeBase {
    facts: Vec<Rc<Fact>>,
    facts_map: HashMap<u128, PredicateIndex>,
    rules: Vec<Rc<Rule>>,
    symbols: SymbolTable,
}

impl View for KnowledgeBase {
    type V = KbView;

    closed spec fn view(&self) -> KbView {
        KbView {
            facts: rc_facts_view(self.facts@),
            rules: rc_rules_view(self.rules@),
            depth: Map::new(
                |s: Sym| self.facts_map@.contains_key(Symbol::spec_key(s)),
                |s: Sym| self.facts_map@[Symbol::spec_key(s)].depth(),
            ),
        }
    }
}

impl KnowledgeBase {
    /// The store is as it should be: what it holds is valid, every stored
    /// fact's predicate has an index, and each index fits the stored facts.
    pub closed spec fn wf(&self) -> bool {
        &&& self@.valid()
        &&& forall|i: int|
            0 <= i < self@.facts.len() ==> self.facts_map@.contains_key(
                Symbol::spec_key((#[trigger] self@.facts[i]).pred),
            )
        &&& forall|pred: Sym|
            self.facts_map@.contains_key(#[trigger] Symbol::spec_key(pred))
                ==> self.facts_map@[Symbol::spec_key(pred)].wf(pred, self@.facts)
    }

    /// A well-formed store holds what a valid store holds.
    pub proof fn lemma_wf_valid(&self)
        requires
            self.wf(),
        ensures
            self@.valid(),
    {
    }

    /// A store holds no more than a list can.
    pub proof fn lemma_bounded(&self)
        ensures
            self@.facts.len() <= usize::MAX,
            self@.rules.len() <= usize::MAX,
    {
        assert(self.facts.len() == self.facts@.len());
        assert(self.rules.len() == self.rules@.len());
    }

    /// An empty store.
    pub fn new() -> (kb: KnowledgeBase)
        ensures
            kb.wf(),
            kb@.facts.len() == 0,
            kb@.rules.len() == 0,
            kb@.depth == Map::<Sym, nat>::empty(),
    {
        broadcast use vstd::std_specs::hash::group_hash_axioms;

        let kb = KnowledgeBase {
            facts: Vec::new(),
            facts_map: HashMap::new(),
            rules: Vec::new(),
            symbols: SymbolTable::new(),
        };
        assert(kb@.depth =~= Map::<Sym, nat>::empty());
        kb
    }

    /// The table in which the store interns its names.
    pub closed spec fn table(&self) -> SymbolTable {
        self.symbols
    }

    /// An empty store that interns its names in `symbols`: the table is kept
    /// as it is given, with the names that were interned in it.
    pub fn with_symbols(symbols: SymbolTable) -> (kb: KnowledgeBase)
        ensures
            kb.wf(),
            kb.table() == symbols,
            kb@.facts.len() == 0,
            kb@.rules.len() == 0,
            kb@.depth == Map::<Sym, nat>::empty(),
    {
        broadcast use vstd::std_specs::hash::group_hash_axioms;

        let kb = KnowledgeBase {
            facts: Vec::new(),
            facts_map: HashMap::new(),
            rules: Vec::new(),
            symbols,
        };
        assert(kb@.depth =~= Map::<Sym, nat>::empty());
        kb
    }

    /// The fact that `fact` spells, its names interned in this store's table.
    /// The text must begin with a fact and go on after it. The store stays as
    /// it is: the fact is not asserted.
    pub fn create_fact(&mut self, fact: &str) -> (r: Result<Fact, KbError>)
        ensures
            final(self)@ == old(self)@,
            old(self).wf() ==> final(self).wf(),
            match r {
                Ok(f) => fact_at(fact.spec_bytes(), 0) matches Scan::Done(text, _) && f.spells(
                    text.pred,
                    text.args,
                ),
                Err(e) => e == KbError::ParseFailure && !(fact_at(fact.spec_bytes(), 0) is Done),
            },
    {
        match parse_fact(fact.as_bytes()) {
            Ok(pf) => Ok(Fact::from(&pf, &mut self.symbols)),
            Err(e) => Err(e),
        }
    }

    /// The rule that `rule` spells, its names interned in this store's table.
    /// The text must begin with a rule and go on after it. The store stays as
    /// it is: the rule is not asserted.
    pub fn create_rule(&mut self, rule: &str) -> (r: Result<Rule, KbError>)
        ensures
            final(self)@ == old(self)@,
            old(self).wf() ==> final(self).wf(),
            match r {
                Ok(ru) => rule_at(rule.spec_bytes(), 0) matches Scan::Done(text, _) && ru.spells(
                    text,
                ),
                Err(e) => e == KbError::ParseFailure && !(rule_at(rule.spec_bytes(), 0) is Done),
            },
    {
        match parse_rule(rule.as_bytes()) {
            Ok(pr) => Ok(Rule::from(&pr, &mut self.symbols)),
            Err(e) => Err(e),
        }
    }

    /// Matches `f1` against `f2`, argument by argument from left to right.
    pub fn try_bind(&self, f1: &Fact, f2: &Fact) -> (r: Result<Bindings, KbError>)
        ensures
            match r {
                Ok(bindings) => unify(f1@, f2@) == Some(bindings@),
                Err(e) => e == KbError::BindFailure && unify(f1@, f2@).is_none(),
            },
    {
        try_bind(f1, f2)
    }

    /// A copy of `fact` with each bound variable replaced by what it is bound
    /// to, justified by `support` if there is one.
    pub fn apply_bindings(
        &self,
        fact: &Fact,
        support: Option<(Rc<Fact>, Rc<Rule>)>,
        bindings: &Bindings,
    ) -> (r: Fact)
        ensures
            r@ == substitute(fact@, bindings@, support_of(support)),
    {
        apply_bindings(fact, support, bindings)
    }

    /// Whether some argument of `fact` is a variable.
    pub fn has_var(&self, fact: &Fact) -> (r: bool)
        ensures
            r == !fact@.ground(),
    {
        has_var(fact)
    }

    /// The symbol for `name` in this store's table. The store stays as it
    /// is; `name` is then among the names that were interned in its table.
    pub fn intern_string(&mut self, name: &str) -> (s: Symbol)
        ensures
            s.name() == name@,
            s.is_var() == is_variable_name(name@),
            final(self)@ == old(self)@,
            final(self).table().filed() == old(self).table().filed().insert(name@),
            old(self).wf() ==> final(self).wf(),
    {
        self.symbols.intern(name)
    }

    /// The stored facts, oldest first.
    pub fn facts(&self) -> (list: &Vec<Rc<Fact>>)
        ensures
            rc_facts_view(list@) == self@.facts,
    {
        &self.facts
    }

    /// The stored rules, oldest first.
    pub fn rules(&self) -> (list: &Vec<Rc<Rule>>)
        ensures
            rc_rules_view(list@) == self@.rules,
    {
        &self.rules
    }

    /// Whether a fact with this predicate and these arguments is stored.
    pub fn contains_fact(&self, fact: &Fact) -> (r: bool)
        ensures
            r == self@.has_fact(fact@),
    {
        let mut i: usize = 0;
        while i < self.facts.len()
            invariant
                i <= self.facts.len(),
                forall|k: int| 0 <= k < i ==> !(#[trigger] self@.facts[k]).same_atom(fact@),
            decreases self.facts.len() - i,
        {
            if self.facts[i].same_atom(fact) {
                assert(self@.facts[i as int].same_atom(fact@));
                return true;
            }
            i += 1;
        }
        false
    }

    /// Whether a rule with these premises and this conclusion is stored.
    pub fn contains_rule(&self, rule: &Rule) -> (r: bool)
        ensures
            r == self@.has_rule(rule@),
    {
        let mut i: usize = 0;
        while i < self.rules.len()
            invariant
                i <= self.rules.len(),
                forall|k: int| 0 <= k < i ==> !(#[trigger] self@.rules[k]).same_clause(rule@),
            decreases self.rules.len() - i,
        {
            if self.rules[i].same_clause(rule) {
                assert(self@.rules[i as int].same_clause(rule@));
                return true;
            }
            i += 1;
        }
        false
    }

    /// Whether the fact is stored. Nothing is derived to answer.
    pub fn ask(&self, fact: &Fact) -> (r: Result<bool, KbError>)
        ensures
            r == Ok::<bool, KbError>(self@.has_fact(fact@)),
    {
        if self.contains_fact(fact) {
            return Ok(true);
        }
        Ok(false)
    }

    /// Where the first stored fact stands that equals `fact`, justification included.
    pub fn find_fact(&self, fact: &Fact) -> (r: Option<usize>)
        ensures
            match r {
                Some(i) => i < self@.facts.len() && self@.facts[i as int] == fact@ && forall|k: int|
                    0 <= k < i ==> #[trigger] self@.facts[k] != fact@,
                None => !self@.facts.contains(fact@),
            },
    {
        let mut i: usize = 0;
        while i < self.facts.len()
            invariant
                i <= self.facts.len(),
                forall|k: int| 0 <= k < i ==> #[trigger] self@.facts[k] != fact@,
            decreases self.facts.len() - i,
        {
            if same_fact(&self.facts[i], fact) {
                return Some(i);
            }
            i += 1;
        }
        None
    }

    /// Where the first stored rule stands that equals `rule`, justification included.
    pub fn find_rule(&self, rule: &Rule) -> (r: Option<usize>)
        ensures
            match r {
                Some(i) => i < self@.rules.len() && self@.rules[i as int] == rule@ && forall|k: int|
                    0 <= k < i ==> #[trigger] self@.rules[k] != rule@,
                None => !self@.rules.contains(rule@),
            },
    {
        let mut i: usize = 0;
        while i < self.rules.len()
            invariant
                i <= self.rules.len(),
                forall|k: int| 0 <= k < i ==> #[trigger] self@.rules[k] != rule@,
            decreases self.rules.len() - i,
        {
            if same_rule(&self.rules[i], rule) {
                return Some(i);
            }
            i += 1;
        }
        None
    }

    /// Stores a ground fact that is not yet stored, and files it in the index
    /// of its predicate.
    pub(crate) fn insert_fact(&mut self, fact: Fact) -> (stored: Rc<Fact>)
        requires
            old(self).wf(),
            fact@.ground(),
            !old(self)@.has_fact(fact@),
        ensures
            final(self).wf(),
            final(self)@ == old(self)@.with_fact(fact@),
            (*stored)@ == fact@,
    {
        broadcast use vstd::std_specs::hash::group_hash_axioms;

        let ghost f = fact@;
        let ghost before = self@;
        let ghost old_map = self.facts_map@;
        let key = fact.pred.key();
        let fact_ref = Rc::new(fact);
        self.facts.push(Rc::clone(&fact_ref));
        assert(rc_facts_view(self.facts@) =~= before.facts.push(f));
        let mut entry = match self.facts_map.remove(&key) {
            Some(entry) => entry,
            None => {
                proof {
                    assert forall|i: int|
                        0 <= i < before.facts.len() && (#[trigger] before.facts[i]).pred
                            == f.pred implies before.facts[i].args.len() == 0 by {
                        assert(old_map.contains_key(Symbol::spec_key(before.facts[i].pred)));
                    }
                }
                PredicateIndex::new(Ghost(f.pred), Ghost(before.facts))
            },
        };
        entry.insert(Rc::clone(&fact_ref), Ghost(before.facts));
        self.facts_map.insert(key, entry);
        proof {
            let after = before.with_fact(f);
            assert forall|s: Sym| #[trigger]
                self.facts_map@.contains_key(Symbol::spec_key(s)) == (s == f.pred
                    || old_map.contains_key(Symbol::spec_key(s))) by {
                Symbol::key_is_injective(s, f.pred);
            }
            assert(self@.depth =~= after.depth) by {
                assert forall|s: Sym| #[trigger] self@.depth.contains_key(s) implies self@.depth[s]
                    == after.depth[s] by {
                    Symbol::key_is_injective(s, f.pred);
                }
            }
            assert(self@ == after);
            assert forall|i: int| 0 <= i < self@.facts.len() implies self.facts_map@.contains_key(
                Symbol::spec_key((#[trigger] self@.facts[i]).pred),
            ) by {
                if i < before.facts.len() {
                    assert(self@.facts[i] == before.facts[i]);
                    assert(old_map.contains_key(Symbol::spec_key(before.facts[i].pred)));
                }
            }
            assert forall|pred: Sym|
                self.facts_map@.contains_key(
                    #[trigger] Symbol::spec_key(pred),
                ) implies self.facts_map@[Symbol::spec_key(pred)].wf(pred, self@.facts) by {
                Symbol::key_is_injective(pred, f.pred);
                if pred != f.pred {
                    old_map[Symbol::spec_key(pred)].lemma_other_joins(pred, before.facts, f);
                }
            }
            assert forall|i: int, j: int| 0 <= i < j < self@.facts.len() implies !(
            #[trigger] self@.facts[i]).same_atom(#[trigger] self@.facts[j]) by {
                if j < before.facts.len() {
                    assert(self@.facts[i] == before.facts[i]);
                    assert(self@.facts[j] == before.facts[j]);
                } else {
                    assert(self@.facts[i] == before.facts[i]);
                }
            }
            assert forall|i: int| 0 <= i < self@.facts.len() implies (
            #[trigger] self@.facts[i]).ground() by {
                if i < before.facts.len() {
                    assert(self@.facts[i] == before.facts[i]);
                }
            }
        }
        fact_ref
    }

    /// Stores `fact` unless it has a variable or is already stored.
    pub fn add_fact(&mut self, fact: Fact) -> (r: Result<Rc<Fact>, KbError>)
        requires
            old(self).wf(),
        ensures
            final(self).wf(),
            match r {
                Ok(stored) => fact@.ground() && !old(self)@.has_fact(fact@) && final(self)@ == old(
                    self,
                )@.with_fact(fact@) && (*stored)@ == fact@,
                Err(e) => final(self)@ == old(self)@ && if !fact@.ground() {
                    e == KbError::GroundnessViolation
                } else {
                    e == KbError::Duplicate && old(self)@.has_fact(fact@)
                },
            },
    {
        if fact.contains_variable() {
            return Err(KbError::GroundnessViolation);
        }
        if self.contains_fact(&fact) {
            return Err(KbError::Duplicate);
        }
        Ok(self.insert_fact(fact))
    }

    /// Stores a rule that is not yet stored.
    pub(crate) fn insert_rule(&mut self, rule: Rule) -> (stored: Rc<Rule>)
        requires
            old(self).wf(),
            !old(self)@.has_rule(rule@),
        ensures
            final(self).wf(),
            final(self)@ == old(self)@.with_rule(rule@),
            (*stored)@ == rule@,
    {
        let ghost before = self@;
        let ghost r = rule@;
        let rule_ref = Rc::new(rule);
        self.rules.push(Rc::clone(&rule_ref));
        proof {
            assert(rc_rules_view(self.rules@) =~= before.rules.push(r));
            assert(self@ == before.with_rule(r));
            assert forall|i: int, j: int| 0 <= i < j < self@.rules.len() implies !(
            #[trigger] self@.rules[i]).same_clause(#[trigger] self@.rules[j]) by {
                if j < before.rules.len() {
                    assert(self@.rules[i] == before.rules[i]);
                    assert(self@.rules[j] == before.rules[j]);
                } else {
                    assert(self@.rules[i] == before.rules[i]);
                }
            }
        }
        rule_ref
    }

    /// Stores `rule` unless it is already stored.
    pub fn add_rule(&mut self, rule: Rule) -> (r: Result<Rc<Rule>, KbError>)
        requires
            old(self).wf(),
        ensures
            final(self).wf(),
            match r {
                Ok(stored) => !old(self)@.has_rule(rule@) && final(self)@ == old(self)@.with_rule(
                    rule@,
                ) && (*stored)@ == rule@,
                Err(e) => final(self)@ == old(self)@ && e == KbError::Duplicate && old(
                    self,
                )@.has_rule(rule@),
            },
    {
        if self.contains_rule(&rule) {
            return Err(KbError::Duplicate);
        }
        Ok(self.insert_rule(rule))
    }

    /// Takes the fact at `i` out of the store and out of its index. Nothing
    /// else leaves.
    pub(crate) fn take_fact(&mut self, i: usize) -> (taken: Rc<Fact>)
        requires
            old(self).wf(),
            i < old(self)@.facts.len(),
        ensures
            final(self).wf(),
            final(self)@ == old(self)@.without_fact(i as int),
            (*taken)@ == old(self)@.facts[i as int],
    {
        broadcast use vstd::std_specs::hash::group_hash_axioms;

        let ghost before = self@;
        let ghost old_map = self.facts_map@;
        let ghost f = before.facts[i as int];
        let fact_ref = self.facts.remove(i);
        assert(rc_facts_view(self.facts@) =~= before.facts.remove(i as int));
        let key = fact_ref.pred.key();
        proof {
            assert(old_map.contains_key(Symbol::spec_key(before.facts[i as int].pred)));
            assert(before.facts.no_duplicates()) by {
                assert forall|a: int, b: int|
                    0 <= a < before.facts.len() && 0 <= b < before.facts.len() && a
                        != b implies before.facts[a] != before.facts[b] by {
                    if a < b {
                        assert(!before.facts[a].same_atom(before.facts[b]));
                    } else {
                        assert(!before.facts[b].same_atom(before.facts[a]));
                    }
                }
            }
        }
        match self.facts_map.remove(&key) {
            Some(entry) => {
                let mut entry = entry;
                entry.remove(&fact_ref, Ghost(before.facts), Ghost(i as int));
                self.facts_map.insert(key, entry);
            },
            None => {},
        }
        proof {
            let after = before.without_fact(i as int);
            assert forall|s: Sym| #[trigger]
                self.facts_map@.contains_key(Symbol::spec_key(s)) == old_map.contains_key(
                    Symbol::spec_key(s),
                ) by {
                Symbol::key_is_injective(s, f.pred);
            }
            assert(self@.depth =~= after.depth) by {
                assert forall|s: Sym| #[trigger] self@.depth.contains_key(s) implies self@.depth[s]
                    == after.depth[s] by {
                    Symbol::key_is_injective(s, f.pred);
                }
            }
            assert(self@ == after);
            assert forall|k: int| 0 <= k < self@.facts.len() implies (#[trigger] self@.facts[k])
                == before.facts[if k < i { k } else { k + 1 }] by {}
            assert forall|k: int| 0 <= k < self@.facts.len() implies self.facts_map@.contains_key(
                Symbol::spec_key((#[trigger] self@.facts[k]).pred),
            ) by {
                let m = if k < i { k } else { k + 1 };
                assert(self@.facts[k] == before.facts[m]);
                assert(old_map.contains_key(Symbol::spec_key(before.facts[m].pred)));
            }
            assert forall|pred: Sym|
                self.facts_map@.contains_key(
                    #[trigger] Symbol::spec_key(pred),
                ) implies self.facts_map@[Symbol::spec_key(pred)].wf(pred, self@.facts) by {
                Symbol::key_is_injective(pred, f.pred);
                if pred != f.pred {
                    old_map[Symbol::spec_key(pred)].lemma_other_leaves(pred, before.facts, i as int);
                }
            }
            assert forall|a: int, b: int| 0 <= a < b < self@.facts.len() implies !(
            #[trigger] self@.facts[a]).same_atom(#[trigger] self@.facts[b]) by {
                let ma = if a < i { a } else { a + 1 };
                let mb = if b < i { b } else { b + 1 };
                assert(self@.facts[a] == before.facts[ma]);
                assert(self@.facts[b] == before.facts[mb]);
                assert(!before.facts[ma].same_atom(before.facts[mb]));
            }
            assert forall|k: int| 0 <= k < self@.facts.len() implies (
            #[trigger] self@.facts[k]).ground() by {
                let m = if k < i { k } else { k + 1 };
                assert(self@.facts[k] == before.facts[m]);
                assert(before.facts[m].ground());
            }
        }
        fact_ref
    }

    /// Takes the rule at `i` out of the store. Nothing else leaves.
    pub(crate) fn take_rule(&mut self, i: usize) -> (taken: Rc<Rule>)
        requires
            old(self).wf(),
            i < old(self)@.rules.len(),
        ensures
            final(self).wf(),
            final(self)@ == old(self)@.without_rule(i as int),
            (*taken)@ == old(self)@.rules[i as int],
    {
        let ghost before = self@;
        let rule_ref = self.rules.remove(i);
        proof {
            assert(rc_rules_view(self.rules@) =~= before.rules.remove(i as int));
            assert(self@ == before.without_rule(i as int));
            assert forall|a: int, b: int| 0 <= a < b < self@.rules.len() implies !(
            #[trigger] self@.rules[a]).same_clause(#[trigger] self@.rules[b]) by {
                let ma = if a < i { a } else { a + 1 };
                let mb = if b < i { b } else { b + 1 };
                assert(self@.rules[a] == before.rules[ma]);
                assert(self@.rules[b] == before.rules[mb]);
                assert(!before.rules[ma].same_clause(before.rules[mb]));
            }
        }
        rule_ref
    }

    /// The stored facts that answer `pattern`, found through the index of the
    /// pattern's predicate. The order in which they come is not promised.
    pub fn get_query_facts(&self, pattern: &Fact) -> (found: Vec<Rc<Fact>>)
        requires
            self.wf(),
        ensures
            rc_facts_view(found@).to_multiset() == self@.matches(pattern@).to_multiset(),
    {
        self.matching_facts(pattern)
    }

    /// The stored facts that answer `pattern`, oldest first.
    fn matching_facts(&self, pattern: &Fact) -> (found: Vec<Rc<Fact>>)
        requires
            self.wf(),
        ensures
            rc_facts_view(found@) == self@.matches(pattern@),
    {
        broadcast use vstd::std_specs::hash::group_hash_axioms;

        match self.facts_map.get(&pattern.pred.key()) {
            Some(entry) => entry.lookup(pattern, Ghost(self@.facts)),
            None => {
                proof {
                    crate::sequences::lemma_filter_none(
                        self@.facts,
                        matching(pattern@, self@.depth_of(pattern@.pred)),
                    );
                }
                let found: Vec<Rc<Fact>> = Vec::new();
                assert(rc_facts_view(found@) =~= Seq::empty());
                found
            },
        }
    }

    /// For each stored fact that answers `pattern`, the pattern's variables
    /// from left to right, each with the symbol that the fact holds in its
    /// place. The order of the answers is not promised.
    pub fn query(&self, pattern: &Fact) -> (answers: Vec<Vec<(Symbol, Symbol)>>)
        requires
            self.wf(),
        ensures
            answers_view(answers@).to_multiset() == self@.answers(pattern@).to_multiset(),
    {
        let ghost p = pattern@;
        let mut query_indices: Vec<usize> = Vec::new();
        let mut i: usize = 0;
        while i < pattern.args.len()
            invariant
                i <= pattern.args.len(),
                p == pattern@,
                query_indices@.map_values(|x: usize| x as int) == var_positions(p.args, i as nat),
                forall|k: int| 0 <= k < query_indices@.len() ==> #[trigger] query_indices@[k] < i,
            decreases pattern.args.len() - i,
        {
            assert(p.args[i as int] == pattern.args@[i as int]@);
            let ghost before = query_indices@.map_values(|x: usize| x as int);
            if pattern.args[i].is_var() {
                query_indices.push(i);
                assert(query_indices@.map_values(|x: usize| x as int) =~= before.push(i as int));
            }
            i += 1;
        }
        let found = self.matching_facts(pattern);
        let ghost facts = rc_facts_view(found@);
        proof {
            assert forall|k: int| 0 <= k < facts.len() implies p.args.len() <= (
            #[trigger] facts[k]).args.len() by {
                self@.facts.lemma_filter_pred(matching(p, self@.depth_of(p.pred)), k);
            }
        }
        let mut bindings: Vec<Vec<(Symbol, Symbol)>> = Vec::new();
        let mut n: usize = 0;
        while n < found.len()
            invariant
                n <= found.len(),
                p == pattern@,
                facts == rc_facts_view(found@),
                query_indices@.map_values(|x: usize| x as int) == var_positions(
                    p.args,
                    p.args.len(),
                ),
                forall|k: int|
                    0 <= k < query_indices@.len() ==> #[trigger] query_indices@[k] < p.args.len(),
                forall|k: int| 0 <= k < facts.len() ==> p.args.len() <= (#[trigger] facts[k]).args.len(),
                bindings@.len() == n,
                forall|k: int|
                    0 <= k < n ==> pairs_view((#[trigger] bindings@[k])@) == binding_list(p, facts[k]),
            decreases found.len() - n,
        {
            let matching_fact = &found[n];
            let ghost m = facts[n as int];
            assert(m == (**matching_fact)@);
            let mut curr_binding: Vec<(Symbol, Symbol)> = Vec::new();
            let mut q: usize = 0;
            while q < query_indices.len()
                invariant
                    q <= query_indices.len(),
                    p == pattern@,
                    m == (**matching_fact)@,
                    p.args.len() <= m.args.len(),
                    forall|k: int|
                        0 <= k < query_indices@.len() ==> #[trigger] query_indices@[k]
                            < p.args.len(),
                    curr_binding@.len() == q,
                    forall|k: int|
                        0 <= k < q ==> (#[trigger] curr_binding@[k]).0@
                            == p.args[query_indices@[k] as int] && curr_binding@[k].1@
                            == m.args[query_indices@[k] as int],
                decreases query_indices.len() - q,
            {
                let at = query_indices[q];
                assert(p.args[at as int] == pattern.args@[at as int]@);
                assert(m.args[at as int] == matching_fact.args@[at as int]@);
                curr_binding.push((pattern.args[at].clone(), matching_fact.args[at].clone()));
                q += 1;
            }
            proof {
                let positions = query_indices@.map_values(|x: usize| x as int);
                assert(pairs_view(curr_binding@) =~= binding_list(p, m)) by {
                    assert forall|k: int| 0 <= k < positions.len() implies pairs_view(
                        curr_binding@,
                    )[k] == #[trigger] binding_list(p, m)[k] by {
                        assert(positions[k] == query_indices@[k] as int);
                    }
                }
            }
            bindings.push(curr_binding);
            n += 1;
        }
        assert(answers_view(bindings@) =~= self@.answers(p));
        bindings
    }
}

} // verus!
