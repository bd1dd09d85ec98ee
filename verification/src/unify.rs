//! Matching a fact against a pattern, and filling a pattern in.

use crate::error::KbError;
use crate::statement::syms;
use crate::statement::Fact;
use crate::statement::FactView;
use crate::statement::Rule;
use crate::statement::RuleView;
use crate::symbols::Sym;
use crate::symbols::Symbol;
use std::collections::HashMap;
use std::rc::Rc;
use vstd::prelude::*;

verus! {

/// What one pair of arguments adds to the bindings so far. Identical symbols
/// add nothing; a variable beside a constant is bound to it, replacing what it
/// was bound to; any other pair does not match.
pub open spec fn bind_pair(so_far: Map<Sym, Sym>, a1: Sym, a2: Sym) -> Option<Map<Sym, Sym>> {
    if a1 == a2 {
        Some(so_far)
    } else if a1.var && !a2.var {
        Some(so_far.insert(a1, a2))
    } else if a2.var && !a1.var {
        Some(so_far.insert(a2, a1))
    } else {
        None
    }
}

/// The bindings that the first `n` pairs of arguments give, taken from left to right.
pub open spec fn bind_prefix(a: Seq<Sym>, b: Seq<Sym>, n: nat) -> Option<Map<Sym, Sym>>
    decreases n,
{
    if n == 0 {
        Some(Map::empty())
    } else {
        match bind_prefix(a, b, (n - 1) as nat) {
            Some(so_far) => bind_pair(so_far, a[n - 1], b[n - 1]),
            None => None,
        }
    }
}

/// The bindings under which two facts match, if they do: same predicate, same
/// number of arguments, and every pair of arguments matches.
pub open spec fn unify(f1: FactView, f2: FactView) -> Option<Map<Sym, Sym>> {
    if f1.pred != f2.pred || f1.args.len() != f2.args.len() {
        None
    } else {
        bind_prefix(f1.args, f2.args, f1.args.len())
    }
}

/// A symbol with its binding put in its place: a bound variable becomes what
/// it is bound to, anything else stays.
pub open spec fn substitute_sym(s: Sym, bindings: Map<Sym, Sym>) -> Sym {
    if s.var && bindings.contains_key(s) {
        bindings[s]
    } else {
        s
    }
}

/// The arguments with the bindings put in.
pub open spec fn substitute_args(args: Seq<Sym>, bindings: Map<Sym, Sym>) -> Seq<Sym> {
    Seq::new(args.len(), |i: int| substitute_sym(args[i], bindings))
}

/// The pattern with the bindings put into its arguments, justified by `support`.
pub open spec fn substitute(
    pattern: FactView,
    bindings: Map<Sym, Sym>,
    support: Seq<(FactView, RuleView)>,
) -> FactView {
    FactView {
        pred: pattern.pred,
        args: substitute_args(pattern.args, bindings),
        supported_by: support,
    }
}

/// The justification that an optional pair of fact and rule stands for.
pub open spec fn support_of(support: Option<(Rc<Fact>, Rc<Rule>)>) -> Seq<(FactView, RuleView)> {
    match support {
        Some(pair) => seq![((*pair.0)@, (*pair.1)@)],
        None => Seq::empty(),
    }
}

/// Variables and what they are bound to.
pub struct Bindings {
    map: HashMap<u128, Symbol>,
}

impl View for Bindings {
    type V = Map<Sym, Sym>;

    closed spec fn view(&self) -> Map<Sym, Sym> {
        Map::new(
            |s: Sym| self.map@.contains_key(Symbol::spec_key(s)),
            |s: Sym| self.map@[Symbol::spec_key(s)]@,
        )
    }
}

impl Bindings {
    /// No variable is bound.
    pub fn new() -> (b: Bindings)
        ensures
            b@ == Map::<Sym, Sym>::empty(),
    {
        let b = Bindings { map: HashMap::new() };
        assert(b@ =~= Map::<Sym, Sym>::empty());
        b
    }

    /// Binds `var` to `value`, replacing what it was bound to.
    pub fn insert(&mut self, var: &Symbol, value: Symbol)
        ensures
            final(self)@ == old(self)@.insert(var@, value@),
    {
        broadcast use vstd::std_specs::hash::group_hash_axioms;

        self.map.insert(var.key(), value);
        proof {
            assert forall|s: Sym| #[trigger] Symbol::spec_key(s) == Symbol::spec_key(var@) implies s
                == var@ by {
                Symbol::key_is_injective(s, var@);
            }
            assert(self@ =~= old(self)@.insert(var@, value@));
        }
    }

    /// Whether `var` is bound.
    pub fn contains_key(&self, var: &Symbol) -> (r: bool)
        ensures
            r == self@.contains_key(var@),
    {
        broadcast use vstd::std_specs::hash::group_hash_axioms;

        self.map.contains_key(&var.key())
    }

    /// What `var` is bound to, if it is bound.
    pub fn get(&self, var: &Symbol) -> (r: Option<&Symbol>)
        ensures
            r.is_some() == self@.contains_key(var@),
            r matches Some(s) ==> s@ == self@[var@],
    {
        broadcast use vstd::std_specs::hash::group_hash_axioms;

        self.map.get(&var.key())
    }
}

/// Matches `f1` against `f2`, argument by argument from left to right.
/// Fails exactly when the two do not unify.
pub fn try_bind(f1: &Fact, f2: &Fact) -> (r: Result<Bindings, KbError>)
    ensures
        match r {
            Ok(bindings) => unify(f1@, f2@) == Some(bindings@),
            Err(e) => e == KbError::BindFailure && unify(f1@, f2@).is_none(),
        },
{
    if f1.pred != f2.pred || f1.args.len() != f2.args.len() {
        return Err(KbError::BindFailure);
    }
    let mut bindings = Bindings::new();
    let mut i: usize = 0;
    while i < f1.args.len()
        invariant
            i <= f1.args.len(),
            f1.args.len() == f2.args.len(),
            f1@.pred == f2@.pred,
            bind_prefix(f1@.args, f2@.args, i as nat) == Some(bindings@),
        decreases f1.args.len() - i,
    {
        let a1 = &f1.args[i];
        let a2 = &f2.args[i];
        assert(f1@.args[i as int] == a1@ && f2@.args[i as int] == a2@);
        if a1 != a2 {
            if a1.is_var() && !a2.is_var() {
                bindings.insert(a1, a2.clone());
            } else if a2.is_var() && !a1.is_var() {
                bindings.insert(a2, a1.clone());
            } else {
                proof {
                    lemma_failure_is_final(f1@.args, f2@.args, (i + 1) as nat, f1@.args.len());
                }
                return Err(KbError::BindFailure);
            }
        }
        i += 1;
    }
    Ok(bindings)
}

/// Once a prefix fails to match, every longer prefix fails.
pub proof fn lemma_failure_is_final(a: Seq<Sym>, b: Seq<Sym>, n: nat, m: nat)
    requires
        n <= m,
        bind_prefix(a, b, n).is_none(),
    ensures
        bind_prefix(a, b, m).is_none(),
    decreases m,
{
    if n < m {
        lemma_failure_is_final(a, b, n, (m - 1) as nat);
    }
}

/// A copy of `fact` with each bound variable replaced by what it is bound to,
/// justified by `support` if there is one.
pub fn apply_bindings(fact: &Fact, support: Option<(Rc<Fact>, Rc<Rule>)>, bindings: &Bindings) -> (r:
    Fact)
    ensures
        r@ == substitute(fact@, bindings@, support_of(support)),
{
    let mut args: Vec<Symbol> = Vec::new();
    let mut i: usize = 0;
    while i < fact.args.len()
        invariant
            i <= fact.args.len(),
            args.len() == i,
            forall|k: int|
                0 <= k < i ==> (#[trigger] args@[k])@ == substitute_sym(fact@.args[k], bindings@),
        decreases fact.args.len() - i,
    {
        let symbol = &fact.args[i];
        assert(fact@.args[i as int] == symbol@);
        if symbol.is_var() {
            match bindings.get(symbol) {
                Some(bound) => args.push(bound.clone()),
                None => args.push(symbol.clone()),
            }
        } else {
            args.push(symbol.clone());
        }
        i += 1;
    }
    assert(syms(args@) =~= substitute_args(fact@.args, bindings@));
    let supported_by = match support {
        Some(pair) => {
            let mut v: Vec<(Rc<Fact>, Rc<Rule>)> = Vec::new();
            v.push(pair);
            v
        },
        None => Vec::new(),
    };
    let r = Fact::new(fact.pred.clone(), args, supported_by);
    assert(r@.supported_by =~= support_of(support));
    r
}

/// Whether some argument of `fact` is a variable.
pub fn has_var(fact: &Fact) -> (r: bool)
    ensures
        r == !fact@.ground(),
{
    fact.contains_variable()
}

} // verus!
