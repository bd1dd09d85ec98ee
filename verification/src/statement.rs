//! Facts, rules, and what justifies them.

use crate::parser::texts;
use crate::parser::ParsedFact;
use crate::parser::ParsedRule;
use crate::parser::RuleText;
use crate::symbols::is_variable_name;
use crate::symbols::Sym;
use crate::symbols::Symbol;
use crate::symbols::SymbolTable;
use std::rc::Rc;
use vstd::prelude::*;
use vstd::std_specs::cmp::PartialEqSpecImpl;

verus! {

/// A predicate applied to arguments, with the pairs of fact and rule that
/// produced it. No pair: the fact was asserted directly.
#[derive(Debug)]
pub struct Fact {
    pub pred: Symbol,
    pub args: Vec<Symbol>,
    pub supported_by: Vec<(Rc<Fact>, Rc<Rule>)>,
}

/// Premises that together imply a conclusion, with the pairs of fact and rule
/// that produced the rule.
#[derive(Debug)]
pub struct Rule {
    pub lhs: Vec<Fact>,
    pub rhs: Fact,
    pub supported_by: Vec<(Rc<Fact>, Rc<Rule>)>,
}

/// A fact as the logic sees it.
pub ghost struct FactView {
    pub pred: Sym,
    pub args: Seq<Sym>,
    pub supported_by: Seq<(FactView, RuleView)>,
}

/// A rule as the logic sees it.
pub ghost struct RuleView {
    pub lhs: Seq<FactView>,
    pub rhs: FactView,
    pub supported_by: Seq<(FactView, RuleView)>,
}

impl FactView {
    /// No argument is a variable.
    pub open spec fn ground(self) -> bool {
        forall|i: int| 0 <= i < self.args.len() ==> !(#[trigger] self.args[i]).var
    }

    /// Same predicate and same arguments, whatever the justification.
    pub open spec fn same_atom(self, other: FactView) -> bool {
        self.pred == other.pred && self.args == other.args
    }
}

impl RuleView {
    /// Same premises and same conclusion, whatever the justification.
    pub open spec fn same_clause(self, other: RuleView) -> bool {
        self.lhs == other.lhs && self.rhs == other.rhs
    }
}

/// The symbols of a list, as the logic sees them.
pub open spec fn syms(v: Seq<Symbol>) -> Seq<Sym> {
    Seq::new(v.len(), |i: int| v[i]@)
}

/// The texts of a list of symbols.
pub open spec fn names(v: Seq<Symbol>) -> Seq<Seq<char>> {
    Seq::new(v.len(), |i: int| v[i].name())
}

pub open spec fn supports_view(s: Seq<(Rc<Fact>, Rc<Rule>)>) -> Seq<(FactView, RuleView)>
    decreases s, 0int,
{
    Seq::new(
        s.len(),
        |i: int|
            if 0 <= i < s.len() {
                (fact_view(*s[i].0), rule_view(*s[i].1))
            } else {
                arbitrary()
            },
    )
}

pub open spec fn fact_view(f: Fact) -> FactView
    decreases f, 1int,
{
    FactView { pred: f.pred@, args: syms(f.args@), supported_by: supports_view(f.supported_by@) }
}

pub open spec fn facts_view(s: Seq<Fact>) -> Seq<FactView>
    decreases s, 0int,
{
    Seq::new(
        s.len(),
        |i: int|
            if 0 <= i < s.len() {
                fact_view(s[i])
            } else {
                arbitrary()
            },
    )
}

pub open spec fn rule_view(r: Rule) -> RuleView
    decreases r, 1int,
{
    RuleView {
        lhs: facts_view(r.lhs@),
        rhs: fact_view(r.rhs),
        supported_by: supports_view(r.supported_by@),
    }
}

impl View for Fact {
    type V = FactView;

    open spec fn view(&self) -> FactView {
        fact_view(*self)
    }
}

impl View for Rule {
    type V = RuleView;

    open spec fn view(&self) -> RuleView {
        rule_view(*self)
    }
}

/// Whether two lists hold the same symbols in the same order.
pub fn same_symbols(a: &Vec<Symbol>, b: &Vec<Symbol>) -> (r: bool)
    ensures
        r == (syms(a@) == syms(b@)),
{
    if a.len() != b.len() {
        assert(syms(a@).len() != syms(b@).len());
        return false;
    }
    let mut i: usize = 0;
    while i < a.len()
        invariant
            i <= a.len(),
            a.len() == b.len(),
            forall|k: int| 0 <= k < i ==> a@[k]@ == b@[k]@,
        decreases a.len() - i,
    {
        if a[i] != b[i] {
            assert(syms(a@)[i as int] != syms(b@)[i as int]);
            return false;
        }
        i += 1;
    }
    assert(syms(a@) =~= syms(b@));
    true
}

fn same_supports(a: &Vec<(Rc<Fact>, Rc<Rule>)>, b: &Vec<(Rc<Fact>, Rc<Rule>)>) -> (r: bool)
    ensures
        r == (supports_view(a@) == supports_view(b@)),
    decreases *a, 0int,
{
    if a.len() != b.len() {
        assert(supports_view(a@).len() != supports_view(b@).len());
        return false;
    }
    let mut j: usize = 0;
    while j < a.len()
        invariant
            j <= a.len(),
            a.len() == b.len(),
            forall|k: int| 0 <= k < j ==> supports_view(a@)[k] == supports_view(b@)[k],
        decreases a.len() - j,
    {
        let x = &a[j];
        let y = &b[j];
        if !same_fact(&x.0, &y.0) || !same_rule(&x.1, &y.1) {
            assert(supports_view(a@)[j as int] != supports_view(b@)[j as int]);
            return false;
        }
        j += 1;
    }
    assert(supports_view(a@) =~= supports_view(b@));
    true
}

/// Whether two facts agree in predicate, arguments and justification.
pub fn same_fact(a: &Fact, b: &Fact) -> (r: bool)
    ensures
        r == (a@ == b@),
    decreases *a, 1int,
{
    a.pred == b.pred && same_symbols(&a.args, &b.args) && same_supports(
        &a.supported_by,
        &b.supported_by,
    )
}

fn same_facts(a: &Vec<Fact>, b: &Vec<Fact>) -> (r: bool)
    ensures
        r == (facts_view(a@) == facts_view(b@)),
    decreases *a, 0int,
{
    if a.len() != b.len() {
        assert(facts_view(a@).len() != facts_view(b@).len());
        return false;
    }
    let mut i: usize = 0;
    while i < a.len()
        invariant
            i <= a.len(),
            a.len() == b.len(),
            forall|k: int| 0 <= k < i ==> facts_view(a@)[k] == facts_view(b@)[k],
        decreases a.len() - i,
    {
        if !same_fact(&a[i], &b[i]) {
            assert(facts_view(a@)[i as int] != facts_view(b@)[i as int]);
            return false;
        }
        i += 1;
    }
    assert(facts_view(a@) =~= facts_view(b@));
    true
}

/// Whether two rules agree in premises, conclusion and justification.
pub fn same_rule(a: &Rule, b: &Rule) -> (r: bool)
    ensures
        r == (a@ == b@),
    decreases *a, 1int,
{
    same_facts(&a.lhs, &b.lhs) && same_fact(&a.rhs, &b.rhs) && same_supports(
        &a.supported_by,
        &b.supported_by,
    )
}

impl PartialEq for Fact {
    fn eq(&self, other: &Fact) -> (r: bool) {
        same_fact(self, other)
    }
}

impl PartialEqSpecImpl for Fact {
    open spec fn obeys_eq_spec() -> bool {
        true
    }

    open spec fn eq_spec(&self, other: &Fact) -> bool {
        self@ == other@
    }
}

impl Eq for Fact {}

impl PartialEq for Rule {
    fn eq(&self, other: &Rule) -> (r: bool) {
        same_rule(self, other)
    }
}

impl PartialEqSpecImpl for Rule {
    open spec fn obeys_eq_spec() -> bool {
        true
    }

    open spec fn eq_spec(&self, other: &Rule) -> bool {
        self@ == other@
    }
}

impl Eq for Rule {}

/// A copy of a list of symbols: the same symbols, with the same texts.
pub fn clone_symbols(v: &Vec<Symbol>) -> (r: Vec<Symbol>)
    ensures
        syms(r@) == syms(v@),
        names(r@) == names(v@),
{
    let mut out: Vec<Symbol> = Vec::new();
    let mut i: usize = 0;
    while i < v.len()
        invariant
            i <= v.len(),
            out.len() == i,
            forall|k: int| 0 <= k < i ==> out@[k]@ == v@[k]@ && out@[k].name() == v@[k].name(),
        decreases v.len() - i,
    {
        out.push(v[i].clone());
        i += 1;
    }
    assert(syms(out@) =~= syms(v@));
    assert(names(out@) =~= names(v@));
    out
}

/// A copy of a justification: it shares the facts and rules that it names.
pub fn clone_supports(v: &Vec<(Rc<Fact>, Rc<Rule>)>) -> (r: Vec<(Rc<Fact>, Rc<Rule>)>)
    ensures
        supports_view(r@) == supports_view(v@),
{
    let mut out: Vec<(Rc<Fact>, Rc<Rule>)> = Vec::new();
    let mut i: usize = 0;
    while i < v.len()
        invariant
            i <= v.len(),
            out.len() == i,
            forall|k: int| 0 <= k < i ==> supports_view(out@)[k] == supports_view(v@)[k],
        decreases v.len() - i,
    {
        let f = Rc::clone(&v[i].0);
        let r = Rc::clone(&v[i].1);
        out.push((f, r));
        i += 1;
    }
    assert(supports_view(out@) =~= supports_view(v@));
    out
}

impl Fact {
    /// A fact of these parts.
    pub fn new(pred: Symbol, args: Vec<Symbol>, supported_by: Vec<(Rc<Fact>, Rc<Rule>)>) -> (f:
        Fact)
        ensures
            f.pred == pred,
            f.args == args,
            f.supported_by == supported_by,
    {
        Fact { pred, args, supported_by }
    }

    /// The fact is made of these texts, each interned as the kind that it spells,
    /// and has no justification.
    pub open spec fn spells(&self, pred: Seq<char>, args: Seq<Seq<char>>) -> bool {
        &&& self.pred.name() == pred
        &&& self.pred.is_var() == is_variable_name(pred)
        &&& names(self.args@) == args
        &&& forall|i: int|
            0 <= i < args.len() ==> (#[trigger] self.args@[i]).is_var() == is_variable_name(args[i])
        &&& self.supported_by@.len() == 0
    }

    /// The fact that a parsed fact spells, its names interned in `symbols`.
    pub fn from(pf: &ParsedFact, symbols: &mut SymbolTable) -> (f: Fact)
        ensures
            f.spells(pf@.pred, pf@.args),
    {
        let pred = symbols.intern(pf.pred.as_str());
        let mut args: Vec<Symbol> = Vec::new();
        let mut i: usize = 0;
        while i < pf.args.len()
            invariant
                i <= pf.args.len(),
                args.len() == i,
                forall|k: int|
                    0 <= k < i ==> (#[trigger] args@[k]).name() == pf.args@[k]@ && args@[k].is_var()
                        == is_variable_name(pf.args@[k]@),
            decreases pf.args.len() - i,
        {
            args.push(symbols.intern(pf.args[i].as_str()));
            i += 1;
        }
        assert(names(args@) =~= texts(pf.args@));
        Fact::new(pred, args, Vec::new())
    }

    /// The fact that a list of tokens spells: the first is the predicate, the
    /// rest are the arguments. An empty list spells the predicate with the empty name.
    pub fn from_raw(raw_fact: &Vec<String>, symbols: &mut SymbolTable) -> (f: Fact)
        ensures
            f.spells(Rule::head(texts(raw_fact@)), Rule::tail(texts(raw_fact@))),
    {
        let mut args: Vec<Symbol> = Vec::new();
        proof {
            reveal_strlit("");
        }
        let mut pred = symbols.intern("");
        assert(pred.name() =~= Seq::empty());
        let mut i: usize = 0;
        while i < raw_fact.len()
            invariant
                i <= raw_fact.len(),
                i == 0 ==> pred.name() == Seq::<char>::empty() && !pred.is_var(),
                i > 0 ==> pred.name() == raw_fact@[0]@ && pred.is_var() == is_variable_name(
                    raw_fact@[0]@,
                ),
                i > 0 ==> args.len() == i - 1,
                i == 0 ==> args.len() == 0,
                forall|k: int|
                    0 <= k < args.len() ==> (#[trigger] args@[k]).name() == raw_fact@[k + 1]@
                        && args@[k].is_var() == is_variable_name(raw_fact@[k + 1]@),
            decreases raw_fact.len() - i,
        {
            if i == 0 {
                pred = symbols.intern(raw_fact[i].as_str());
            } else {
                args.push(symbols.intern(raw_fact[i].as_str()));
            }
            i += 1;
        }
        if raw_fact.len() > 0 {
            assert(names(args@) =~= texts(raw_fact@).skip(1));
        } else {
            assert(names(args@) =~= Seq::empty());
        }
        Fact::new(pred, args, Vec::new())
    }

    /// Whether some argument is a variable.
    pub fn contains_variable(&self) -> (r: bool)
        ensures
            r == !self@.ground(),
    {
        let mut i: usize = 0;
        while i < self.args.len()
            invariant
                i <= self.args.len(),
                forall|k: int| 0 <= k < i ==> !(#[trigger] self@.args[k]).var,
            decreases self.args.len() - i,
        {
            if self.args[i].is_var() {
                assert(self@.args[i as int].var);
                return true;
            }
            i += 1;
        }
        false
    }

    /// Whether the fact was asserted directly: it has no justification.
    pub fn asserted(&self) -> (r: bool)
        ensures
            r == (self@.supported_by.len() == 0),
    {
        self.supported_by.len() == 0
    }

    /// Whether the two facts have the same predicate and the same arguments.
    pub fn same_atom(&self, other: &Fact) -> (r: bool)
        ensures
            r == self@.same_atom(other@),
    {
        self.pred == other.pred && same_symbols(&self.args, &other.args)
    }
}

impl Clone for Fact {
    fn clone(&self) -> (r: Fact)
        ensures
            r@ == self@,
            r.pred.name() == self.pred.name(),
            names(r.args@) == names(self.args@),
    {
        Fact {
            pred: self.pred.clone(),
            args: clone_symbols(&self.args),
            supported_by: clone_supports(&self.supported_by),
        }
    }
}

/// A copy of a list of facts.
pub fn clone_facts(v: &Vec<Fact>) -> (r: Vec<Fact>)
    ensures
        facts_view(r@) == facts_view(v@),
{
    let mut out: Vec<Fact> = Vec::new();
    let mut i: usize = 0;
    while i < v.len()
        invariant
            i <= v.len(),
            out.len() == i,
            forall|k: int| 0 <= k < i ==> facts_view(out@)[k] == facts_view(v@)[k],
        decreases v.len() - i,
    {
        out.push(v[i].clone());
        i += 1;
    }
    assert(facts_view(out@) =~= facts_view(v@));
    out
}

impl Rule {
    /// A rule of these parts.
    pub fn new(lhs: Vec<Fact>, rhs: Fact, supported_by: Vec<(Rc<Fact>, Rc<Rule>)>) -> (r: Rule)
        ensures
            r.lhs == lhs,
            r.rhs == rhs,
            r.supported_by == supported_by,
    {
        Rule { lhs, rhs, supported_by }
    }

    /// The rule that a parsed rule spells, part by part, its names interned in
    /// `symbols`. It has no justification.
    pub fn from(pr: &ParsedRule, symbols: &mut SymbolTable) -> (r: Rule)
        ensures
            r.spells(pr@),
    {
        let mut lhs: Vec<Fact> = Vec::new();
        let mut i: usize = 0;
        while i < pr.lhs.len()
            invariant
                i <= pr.lhs.len(),
                lhs.len() == i,
                forall|k: int|
                    0 <= k < i ==> (#[trigger] lhs@[k]).spells(
                        Rule::head(texts(pr.lhs@[k]@)),
                        Rule::tail(texts(pr.lhs@[k]@)),
                    ),
            decreases pr.lhs.len() - i,
        {
            lhs.push(Fact::from_raw(&pr.lhs[i], symbols));
            i += 1;
        }
        let rhs = Fact::from_raw(&pr.rhs, symbols);
        Rule::new(lhs, rhs, Vec::new())
    }

    /// The predicate's name in a list of tokens: the first token, or the empty name.
    pub open spec fn head(raw: Seq<Seq<char>>) -> Seq<char> {
        if raw.len() > 0 {
            raw[0]
        } else {
            Seq::empty()
        }
    }

    /// The arguments' names in a list of tokens: all but the first.
    pub open spec fn tail(raw: Seq<Seq<char>>) -> Seq<Seq<char>> {
        if raw.len() > 0 {
            raw.skip(1)
        } else {
            Seq::empty()
        }
    }

    /// The rule is made of these texts, part by part, and has no justification.
    pub open spec fn spells(&self, text: RuleText) -> bool {
        &&& self.lhs@.len() == text.lhs.len()
        &&& forall|i: int|
            0 <= i < text.lhs.len() ==> (#[trigger] self.lhs@[i]).spells(
                Rule::head(text.lhs[i]),
                Rule::tail(text.lhs[i]),
            )
        &&& self.rhs.spells(Rule::head(text.rhs), Rule::tail(text.rhs))
        &&& self.supported_by@.len() == 0
    }

    /// Whether the rule was asserted directly: it has no justification.
    pub fn asserted(&self) -> (r: bool)
        ensures
            r == (self@.supported_by.len() == 0),
    {
        self.supported_by.len() == 0
    }

    /// Whether the two rules have the same premises and the same conclusion.
    pub fn same_clause(&self, other: &Rule) -> (r: bool)
        ensures
            r == self@.same_clause(other@),
    {
        same_facts(&self.lhs, &other.lhs) && same_fact(&self.rhs, &other.rhs)
    }
}

impl Clone for Rule {
    fn clone(&self) -> (r: Rule)
        ensures
            r@ == self@,
    {
        Rule {
            lhs: clone_facts(&self.lhs),
            rhs: self.rhs.clone(),
            supported_by: clone_supports(&self.supported_by),
        }
    }
}

/// A fact or a rule, as the logic sees it.
pub ghost enum StatementView {
    Fact(FactView),
    Rule(RuleView),
}

/// What can be asserted or retracted: a fact or a rule. The store asks a
/// statement which of the two it is.
pub trait Statement {
    /// The statement as the logic sees it.
    spec fn statement_view(&self) -> StatementView;

    /// The fact, if the statement is one.
    fn to_fact(&self) -> (r: Option<Fact>)
        ensures
            match r {
                Some(f) => self.statement_view() == StatementView::Fact(f@),
                None => self.statement_view() is Rule,
            },
    ;

    /// The rule, if the statement is one.
    fn to_rule(&self) -> (r: Option<Rule>)
        ensures
            match r {
                Some(ru) => self.statement_view() == StatementView::Rule(ru@),
                None => self.statement_view() is Fact,
            },
    ;
}

impl Statement for Fact {
    open spec fn statement_view(&self) -> StatementView {
        StatementView::Fact(self@)
    }

    fn to_fact(&self) -> (r: Option<Fact>) {
        Some(self.clone())
    }

    fn to_rule(&self) -> (r: Option<Rule>) {
        None
    }
}

impl Statement for Rule {
    open spec fn statement_view(&self) -> StatementView {
        StatementView::Rule(self@)
    }

    fn to_fact(&self) -> (r: Option<Fact>) {
        None
    }

    fn to_rule(&self) -> (r: Option<Rule>) {
        Some(self.clone())
    }
}

/// A statement as the store holds it, shared with the store.
#[derive(Debug)]
pub enum StoredStatement {
    Fact(Rc<Fact>),
    Rule(Rc<Rule>),
}

impl Statement for StoredStatement {
    open spec fn statement_view(&self) -> StatementView {
        match *self {
            StoredStatement::Fact(f) => StatementView::Fact((*f)@),
            StoredStatement::Rule(r) => StatementView::Rule((*r)@),
        }
    }

    fn to_fact(&self) -> (r: Option<Fact>) {
        match self {
            StoredStatement::Fact(f) => {
                let fact: &Fact = f;
                Some(fact.clone())
            },
            StoredStatement::Rule(_) => None,
        }
    }

    fn to_rule(&self) -> (r: Option<Rule>) {
        match self {
            StoredStatement::Fact(_) => None,
            StoredStatement::Rule(ru) => {
                let rule: &Rule = ru;
                Some(rule.clone())
            },
        }
    }
}

/// Whether the justification names `f` as a triggering fact.
pub open spec fn names_fact(support: Seq<(FactView, RuleView)>, f: FactView) -> bool {
    exists|k: int| 0 <= k < support.len() && (#[trigger] support[k]).0 == f
}

/// Whether the justification names `r` as a firing rule.
pub open spec fn names_rule(support: Seq<(FactView, RuleView)>, r: RuleView) -> bool {
    exists|k: int| 0 <= k < support.len() && (#[trigger] support[k]).1 == r
}

/// Whether `support` names `fact` as a triggering fact.
pub fn supported_by_fact(support: &Vec<(Rc<Fact>, Rc<Rule>)>, fact: &Fact) -> (r: bool)
    ensures
        r == names_fact(supports_view(support@), fact@),
{
    let mut i: usize = 0;
    while i < support.len()
        invariant
            i <= support.len(),
            forall|k: int| 0 <= k < i ==> (#[trigger] supports_view(support@)[k]).0 != fact@,
        decreases support.len() - i,
    {
        if same_fact(&support[i].0, fact) {
            assert(supports_view(support@)[i as int].0 == fact@);
            return true;
        }
        i += 1;
    }
    false
}

/// Whether `support` names `rule` as a firing rule.
pub fn supported_by_rule(support: &Vec<(Rc<Fact>, Rc<Rule>)>, rule: &Rule) -> (r: bool)
    ensures
        r == names_rule(supports_view(support@), rule@),
{
    let mut i: usize = 0;
    while i < support.len()
        invariant
            i <= support.len(),
            forall|k: int| 0 <= k < i ==> (#[trigger] supports_view(support@)[k]).1 != rule@,
        decreases support.len() - i,
    {
        if same_rule(&support[i].1, rule) {
            assert(supports_view(support@)[i as int].1 == rule@);
            return true;
        }
        i += 1;
    }
    false
}

/// The justification names `root`, as a triggering fact or as a firing rule.
pub open spec fn names_root(support: Seq<(FactView, RuleView)>, root: StatementView) -> bool {
    match root {
        StatementView::Fact(f) => names_fact(support, f),
        StatementView::Rule(r) => names_rule(support, r),
    }
}

impl StoredStatement {
    /// Whether `support` names the statement, as a triggering fact or as a firing rule.
    pub fn named_by(&self, support: &Vec<(Rc<Fact>, Rc<Rule>)>) -> (r: bool)
        ensures
            r == names_root(supports_view(support@), self.statement_view()),
    {
        match self {
            StoredStatement::Fact(f) => supported_by_fact(support, f),
            StoredStatement::Rule(ru) => supported_by_rule(support, ru),
        }
    }
}

} // verus!
