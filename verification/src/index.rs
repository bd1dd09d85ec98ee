//! The index of one predicate: for each argument position, the stored facts
//! filed under the symbol that they hold there.

use crate::sequences::both;
use crate::sequences::lemma_filter_agree;
use crate::sequences::lemma_filter_distinct;
use crate::sequences::lemma_filter_none;
use crate::sequences::lemma_filter_remove;
use crate::sequences::lemma_filter_twice;
use crate::statement::same_fact;
use crate::statement::Fact;
use crate::statement::FactView;
use crate::symbols::Sym;
use crate::symbols::Symbol;
use std::collections::HashMap;
use std::rc::Rc;
use vstd::prelude::*;

verus! {

/// The facts behind a list of shared facts.
pub open spec fn rc_facts_view(v: Seq<Rc<Fact>>) -> Seq<FactView> {
    Seq::new(v.len(), |i: int| (*v[i])@)
}

/// A fact is filed in an index of `depth` columns when the index has columns
/// and the fact has an argument for each.
pub open spec fn indexed(f: FactView, depth: nat) -> bool {
    depth > 0 && f.args.len() >= depth
}

/// The facts of one predicate that its index holds.
pub open spec fn member_of(pred: Sym, depth: nat) -> spec_fn(FactView) -> bool {
    |f: FactView| f.pred == pred && indexed(f, depth)
}

/// The facts of one predicate that its index files under `s` in column `j`.
pub open spec fn filed_under(pred: Sym, depth: nat, j: int, s: Sym) -> spec_fn(FactView) -> bool {
    |f: FactView| f.pred == pred && indexed(f, depth) && f.args[j] == s
}

/// The fact holds, at every position where the pattern has a constant, that constant.
pub open spec fn agrees(pattern: FactView, f: FactView) -> bool {
    forall|i: int|
        0 <= i < pattern.args.len() ==> (#[trigger] pattern.args[i]).var || f.args[i]
            == pattern.args[i]
}

pub open spec fn agrees_with(pattern: FactView) -> spec_fn(FactView) -> bool {
    |f: FactView| agrees(pattern, f)
}

/// The facts that answer a pattern, given the depth of the index of the
/// pattern's predicate: the pattern is as long as the index is deep, and the
/// fact is filed there and agrees with the pattern.
pub open spec fn matching(pattern: FactView, depth: nat) -> spec_fn(FactView) -> bool {
    |f: FactView|
        f.pred == pattern.pred && depth == pattern.args.len() && indexed(f, depth) && agrees(
            pattern,
            f,
        )
}

/// Files `fact` under `key`, after what is filed there.
fn file(column: &mut HashMap<u128, Vec<Rc<Fact>>>, key: u128, fact: Rc<Fact>)
    ensures
        final(column)@.dom() == old(column)@.dom().insert(key),
        forall|k: u128| k != key && old(column)@.contains_key(k) ==> final(column)@[k] == old(column)@[k],
        old(column)@.contains_key(key) ==> rc_facts_view(final(column)@[key]@) == rc_facts_view(
            old(column)@[key]@,
        ).push((*fact)@),
        !old(column)@.contains_key(key) ==> rc_facts_view(final(column)@[key]@) == seq![(*fact)@],
{
    broadcast use vstd::std_specs::hash::group_hash_axioms;

    let mut bucket = match column.remove(&key) {
        Some(b) => b,
        None => Vec::new(),
    };
    let ghost before = rc_facts_view(bucket@);
    bucket.push(fact);
    assert(rc_facts_view(bucket@) =~= before.push((*fact)@));
    column.insert(key, bucket);
    assert(final(column)@.dom() =~= old(column)@.dom().insert(key));
}

/// Takes `fact` out of `list`, which holds it once, at `place`.
fn take_out(list: &mut Vec<Rc<Fact>>, fact: &Fact, Ghost(place): Ghost<int>)
    requires
        0 <= place < old(list)@.len(),
        rc_facts_view(old(list)@)[place] == fact@,
        forall|k: int|
            0 <= k < old(list)@.len() && k != place ==> #[trigger] rc_facts_view(old(list)@)[k]
                != fact@,
    ensures
        rc_facts_view(final(list)@) == rc_facts_view(old(list)@).remove(place),
{
    let ghost before = rc_facts_view(list@);
    let mut i: usize = 0;
    while i < list.len()
        invariant
            i <= list.len(),
            i <= place,
            *list == *old(list),
            before == rc_facts_view(list@),
            0 <= place < list@.len(),
            before[place] == fact@,
            forall|k: int| 0 <= k < list@.len() && k != place ==> #[trigger] before[k] != fact@,
        decreases list.len() - i,
    {
        if same_fact(&list[i], fact) {
            assert(before[i as int] == fact@);
            list.remove(i);
            assert(rc_facts_view(list@) =~= before.remove(place));
            return ;
        }
        assert(before[i as int] != fact@);
        i += 1;
    }
}

/// The index of one predicate.
pub struct PredicateIndex {
    members: Vec<Rc<Fact>>,
    columns: Vec<HashMap<u128, Vec<Rc<Fact>>>>,
}

impl PredicateIndex {
    /// The number of columns: the number of arguments of the first fact that
    /// had any. Zero until such a fact is filed.
    pub closed spec fn depth(&self) -> nat {
        self.columns@.len()
    }

    /// What is filed under `s` in column `j`, in the order of filing.
    pub closed spec fn bucket(&self, j: int, s: Sym) -> Seq<FactView> {
        let column = self.columns@[j]@;
        let key = Symbol::spec_key(s);
        if column.contains_key(key) {
            rc_facts_view(column[key]@)
        } else {
            Seq::empty()
        }
    }

    /// Every fact that is filed, in the order of filing.
    pub closed spec fn members(&self) -> Seq<FactView> {
        rc_facts_view(self.members@)
    }

    /// The index holds, in the order of `facts`, exactly the facts of `pred`
    /// among them that can be filed, each under every one of its leading arguments.
    pub closed spec fn wf(&self, pred: Sym, facts: Seq<FactView>) -> bool {
        &&& self.members() == facts.filter(member_of(pred, self.depth()))
        &&& forall|j: int, s: Sym|
            0 <= j < self.depth() ==> #[trigger] self.bucket(j, s) == facts.filter(
                filed_under(pred, self.depth(), j, s),
            )
        &&& self.depth() == 0 ==> forall|i: int|
            0 <= i < facts.len() && (#[trigger] facts[i]).pred == pred ==> facts[i].args.len() == 0
    }

    /// An index without columns. It fits any facts among which `pred` has no
    /// fact with arguments.
    pub(crate) fn new(Ghost(pred): Ghost<Sym>, Ghost(facts): Ghost<Seq<FactView>>) -> (index: PredicateIndex)
        requires
            forall|i: int|
                0 <= i < facts.len() && (#[trigger] facts[i]).pred == pred ==> facts[i].args.len()
                    == 0,
        ensures
            index.depth() == 0,
            index.wf(pred, facts),
    {
        let index = PredicateIndex { members: Vec::new(), columns: Vec::new() };
        proof {
            lemma_filter_none(facts, member_of(pred, 0));
            assert(index.members() =~= Seq::empty());
        }
        index
    }

    /// A fact of another predicate joins the facts: the index still fits.
    pub proof fn lemma_other_joins(&self, pred: Sym, facts: Seq<FactView>, f: FactView)
        requires
            self.wf(pred, facts),
            f.pred != pred,
        ensures
            self.wf(pred, facts.push(f)),
    {
        let d = self.depth();
        facts.lemma_filter_push(f, member_of(pred, d));
        assert forall|j: int, s: Sym| 0 <= j < d implies #[trigger] self.bucket(j, s)
            == facts.push(f).filter(filed_under(pred, d, j, s)) by {
            facts.lemma_filter_push(f, filed_under(pred, d, j, s));
        }
    }

    /// A fact of another predicate leaves the facts: the index still fits.
    pub proof fn lemma_other_leaves(&self, pred: Sym, facts: Seq<FactView>, i: int)
        requires
            self.wf(pred, facts),
            0 <= i < facts.len(),
            facts[i].pred != pred,
        ensures
            self.wf(pred, facts.remove(i)),
    {
        let d = self.depth();
        lemma_filter_remove(facts, member_of(pred, d), i);
        assert forall|j: int, s: Sym| 0 <= j < d implies #[trigger] self.bucket(j, s)
            == facts.remove(i).filter(filed_under(pred, d, j, s)) by {
            lemma_filter_remove(facts, filed_under(pred, d, j, s), i);
        }
        assert forall|k: int|
            d == 0 && 0 <= k < facts.remove(i).len() && (#[trigger] facts.remove(i)[k]).pred
                == pred implies facts.remove(i)[k].args.len() == 0 by {
            if k < i {
                assert(facts.remove(i)[k] == facts[k]);
            } else {
                assert(facts.remove(i)[k] == facts[k + 1]);
            }
        }
    }

    /// Files a new fact of this predicate. The first fact with arguments
    /// decides the number of columns; a fact with fewer arguments than that is
    /// not filed.
    pub(crate) fn insert(&mut self, fact: Rc<Fact>, Ghost(facts): Ghost<Seq<FactView>>)
        requires
            old(self).wf((*fact)@.pred, facts),
        ensures
            final(self).wf((*fact)@.pred, facts.push((*fact)@)),
            final(self).depth() == if old(self).depth() == 0 {
                (*fact)@.args.len()
            } else {
                old(self).depth()
            },
    {
        let ghost f = (*fact)@;
        let ghost pred = f.pred;
        if self.columns.len() == 0 {
            let mut n: usize = 0;
            while n < fact.args.len()
                invariant
                    n <= fact.args.len(),
                    self.columns@.len() == n,
                    self.members == old(self).members,
                    forall|j: int| 0 <= j < n ==> (#[trigger] self.columns@[j])@ == Map::<
                        u128,
                        Vec<Rc<Fact>>,
                    >::empty(),
                decreases fact.args.len() - n,
            {
                self.columns.push(HashMap::new());
                n += 1;
            }
            proof {
                let d = self.depth();
                assert forall|i: int| 0 <= i < facts.len() implies !member_of(pred, d)(
                    #[trigger] facts[i],
                ) by {}
                lemma_filter_none(facts, member_of(pred, d));
                lemma_filter_none(facts, member_of(pred, 0));
                assert forall|j: int, s: Sym| 0 <= j < d implies #[trigger] self.bucket(j, s)
                    == facts.filter(filed_under(pred, d, j, s)) by {
                    assert forall|i: int| 0 <= i < facts.len() implies !filed_under(pred, d, j, s)(
                        #[trigger] facts[i],
                    ) by {}
                    lemma_filter_none(facts, filed_under(pred, d, j, s));
                }
            }
        }
        let depth = self.columns.len();
        let ghost sized = *self;
        if depth == 0 || fact.args.len() < depth {
            proof {
                facts.lemma_filter_push(f, member_of(pred, depth as nat));
                if depth == 0 {
                    lemma_filter_none(facts, member_of(pred, 0));
                    assert forall|i: int|
                        0 <= i < facts.push(f).len() && (#[trigger] facts.push(f)[i]).pred
                            == pred implies facts.push(f)[i].args.len() == 0 by {
                        if i < facts.len() {
                            assert(facts.push(f)[i] == facts[i]);
                        }
                    }
                }
                assert forall|j: int, s: Sym| 0 <= j < depth implies #[trigger] self.bucket(j, s)
                    == facts.push(f).filter(filed_under(pred, depth as nat, j, s)) by {
                    facts.lemma_filter_push(f, filed_under(pred, depth as nat, j, s));
                }
            }
            return ;
        }
        let ghost before = self.members();
        self.members.push(Rc::clone(&fact));
        proof {
            facts.lemma_filter_push(f, member_of(pred, depth as nat));
            assert(self.members() =~= before.push(f));
        }
        let ghost start = *self;
        proof {
            assert forall|c: int, s: Sym| 0 <= c < depth implies #[trigger] start.bucket(c, s)
                == facts.filter(filed_under(pred, depth as nat, c, s)) by {
                assert(sized.bucket(c, s) == facts.filter(filed_under(pred, depth as nat, c, s)));
            }
        }
        let mut j: usize = 0;
        while j < depth
            invariant
                j <= depth,
                depth == self.columns@.len(),
                depth <= fact.args.len(),
                depth > 0,
                f == (*fact)@,
                pred == f.pred,
                self.members == start.members,
                start.depth() == depth,
                forall|c: int, s: Sym|
                    0 <= c < depth ==> #[trigger] start.bucket(c, s) == facts.filter(
                        filed_under(pred, depth as nat, c, s),
                    ),
                forall|c: int| j <= c < depth ==> self.columns@[c] == start.columns@[c],
                forall|c: int, s: Sym|
                    0 <= c < j ==> #[trigger] self.bucket(c, s) == facts.push(f).filter(
                        filed_under(pred, depth as nat, c, s),
                    ),
            decreases depth - j,
        {
            let key = fact.args[j].key();
            let ghost here = self.columns@[j as int]@;
            let ghost prev = *self;
            file(&mut self.columns[j], key, Rc::clone(&fact));
            proof {
                let arg = f.args[j as int];
                assert(arg == fact.args@[j as int]@);
                assert forall|c: int, s: Sym| 0 <= c < j + 1 implies #[trigger] self.bucket(c, s)
                    == facts.push(f).filter(filed_under(pred, depth as nat, c, s)) by {
                    if c < j {
                        assert(prev.bucket(c, s) == facts.push(f).filter(
                            filed_under(pred, depth as nat, c, s),
                        ));
                    }
                    if c == j {
                        Symbol::key_is_injective(s, arg);
                        facts.lemma_filter_push(f, filed_under(pred, depth as nat, c, s));
                        assert(start.bucket(c, s) == facts.filter(
                            filed_under(pred, depth as nat, c, s),
                        ));
                        if s == arg {
                            if !here.contains_key(key) {
                                assert(start.bucket(c, s) =~= Seq::empty());
                                assert(seq![f] =~= Seq::<FactView>::empty().push(f));
                            }
                        }
                    }
                }
            }
            j += 1;
        }
    }

    /// Takes a stored fact of this predicate out of the index.
    pub(crate) fn remove(&mut self, fact: &Fact, Ghost(facts): Ghost<Seq<FactView>>, Ghost(i): Ghost<int>)
        requires
            old(self).wf(fact@.pred, facts),
            facts.no_duplicates(),
            0 <= i < facts.len(),
            facts[i] == fact@,
        ensures
            final(self).wf(fact@.pred, facts.remove(i)),
            final(self).depth() == old(self).depth(),
    {
        let ghost f = fact@;
        let ghost pred = f.pred;
        let depth = self.columns.len();
        proof {
            lemma_filter_remove(facts, member_of(pred, depth as nat), i);
            assert forall|k: int|
                0 <= k < facts.remove(i).len() && (#[trigger] facts.remove(i)[k]).pred
                    == pred && depth == 0 implies facts.remove(i)[k].args.len() == 0 by {
                if k < i {
                    assert(facts.remove(i)[k] == facts[k]);
                } else {
                    assert(facts.remove(i)[k] == facts[k + 1]);
                }
            }
        }
        if depth == 0 || fact.args.len() < depth {
            proof {
                assert forall|j: int, s: Sym| 0 <= j < depth implies #[trigger] self.bucket(j, s)
                    == facts.remove(i).filter(filed_under(pred, depth as nat, j, s)) by {
                    lemma_filter_remove(facts, filed_under(pred, depth as nat, j, s), i);
                }
            }
            return ;
        }
        proof {
            lemma_place(facts, member_of(pred, depth as nat), i);
        }
        let ghost entry = *self;
        take_out(
            &mut self.members,
            fact,
            Ghost(facts.take(i).filter(member_of(pred, depth as nat)).len() as int),
        );
        let ghost start = *self;
        proof {
            assert forall|c: int, s: Sym| 0 <= c < depth implies #[trigger] start.bucket(c, s)
                == facts.filter(filed_under(pred, depth as nat, c, s)) by {
                assert(entry.bucket(c, s) == facts.filter(filed_under(pred, depth as nat, c, s)));
            }
        }
        let mut j: usize = 0;
        while j < depth
            invariant
                j <= depth,
                depth == self.columns@.len(),
                depth <= fact.args.len(),
                depth > 0,
                f == fact@,
                pred == f.pred,
                facts.no_duplicates(),
                0 <= i < facts.len(),
                facts[i] == f,
                self.members == start.members,
                start.depth() == depth,
                forall|c: int, s: Sym|
                    0 <= c < depth ==> #[trigger] start.bucket(c, s) == facts.filter(
                        filed_under(pred, depth as nat, c, s),
                    ),
                forall|c: int| j <= c < depth ==> self.columns@[c] == start.columns@[c],
                forall|c: int, s: Sym|
                    0 <= c < j ==> #[trigger] self.bucket(c, s) == facts.remove(i).filter(
                        filed_under(pred, depth as nat, c, s),
                    ),
            decreases depth - j,
        {
            let key = fact.args[j].key();
            let ghost arg = f.args[j as int];
            assert(arg == fact.args@[j as int]@);
            let ghost here = self.columns@[j as int]@;
            proof {
                lemma_place(facts, filed_under(pred, depth as nat, j as int, arg), i);
                assert(start.bucket(j as int, arg) == facts.filter(
                    filed_under(pred, depth as nat, j as int, arg),
                ));
                assert(here.contains_key(key));
            }
            let ghost prev = *self;
            unfile(
                &mut self.columns[j],
                key,
                fact,
                Ghost(
                    facts.take(i).filter(filed_under(pred, depth as nat, j as int, arg)).len() as int,
                ),
            );
            proof {
                assert forall|c: int, s: Sym| 0 <= c < j + 1 implies #[trigger] self.bucket(c, s)
                    == facts.remove(i).filter(filed_under(pred, depth as nat, c, s)) by {
                    if c < j {
                        assert(prev.bucket(c, s) == facts.remove(i).filter(
                            filed_under(pred, depth as nat, c, s),
                        ));
                    }
                    if c == j {
                        Symbol::key_is_injective(s, arg);
                        lemma_filter_remove(facts, filed_under(pred, depth as nat, c, s), i);
                        assert(start.bucket(c, s) == facts.filter(
                            filed_under(pred, depth as nat, c, s),
                        ));
                    }
                }
            }
            j += 1;
        }
    }

    /// The filed facts that answer `pattern`, in the order of filing.
    pub(crate) fn lookup(&self, pattern: &Fact, Ghost(facts): Ghost<Seq<FactView>>) -> (found: Vec<
        Rc<Fact>,
    >)
        requires
            self.wf(pattern@.pred, facts),
        ensures
            rc_facts_view(found@) == facts.filter(matching(pattern@, self.depth())),
    {
        broadcast use vstd::std_specs::hash::group_hash_axioms;

        let ghost p = pattern@;
        let depth = self.columns.len();
        let ghost want = matching(p, depth as nat);
        if depth == 0 || depth != pattern.args.len() {
            proof {
                lemma_filter_none(facts, want);
            }
            let found: Vec<Rc<Fact>> = Vec::new();
            assert(rc_facts_view(found@) =~= Seq::empty());
            return found;
        }
        let mut first: usize = 0;
        while first < depth && pattern.args[first].is_var()
            invariant
                first <= depth,
                depth == pattern.args.len(),
                p == pattern@,
                forall|k: int| 0 <= k < first ==> (#[trigger] p.args[k]).var,
            decreases depth - first,
        {
            assert(p.args[first as int] == pattern.args@[first as int]@);
            first += 1;
        }
        if first == depth {
            let ghost among = member_of(p.pred, depth as nat);
            proof {
                lemma_filter_twice(facts, among, agrees_with(p));
                lemma_filter_agree(facts, both(among, agrees_with(p)), want);
                assert forall|k: int| 0 <= k < self.members().len() implies among(
                    #[trigger] self.members()[k],
                ) by {
                    facts.lemma_filter_pred(among, k);
                }
            }
            return select(&self.members, pattern);
        }
        let ghost arg = p.args[first as int];
        assert(arg == pattern.args@[first as int]@);
        let ghost under = filed_under(p.pred, depth as nat, first as int, arg);
        assert(self.bucket(first as int, arg) == facts.filter(under));
        match self.columns[first].get(&pattern.args[first].key()) {
            None => {
                proof {
                    assert forall|k: int| 0 <= k < facts.len() implies !want(
                        #[trigger] facts[k],
                    ) by {
                        if want(facts[k]) {
                            assert(under(facts[k]));
                            facts.lemma_filter_contains(under, k);
                        }
                    }
                    lemma_filter_none(facts, want);
                }
                let found: Vec<Rc<Fact>> = Vec::new();
                assert(rc_facts_view(found@) =~= Seq::empty());
                found
            },
            Some(bucket) => {
                proof {
                    lemma_filter_twice(facts, under, agrees_with(p));
                    lemma_filter_agree(facts, both(under, agrees_with(p)), want);
                    assert(rc_facts_view(bucket@) == self.bucket(first as int, arg));
                    assert forall|k: int| 0 <= k < bucket@.len() implies under(
                        #[trigger] rc_facts_view(bucket@)[k],
                    ) by {
                        facts.lemma_filter_pred(under, k);
                    }
                }
                select(bucket, pattern)
            },
        }
    }
}

/// Where a selected element of a sequence without repeats stands in the
/// selection: once, after the selected elements before it.
proof fn lemma_place(facts: Seq<FactView>, p: spec_fn(FactView) -> bool, i: int)
    requires
        facts.no_duplicates(),
        0 <= i < facts.len(),
        p(facts[i]),
    ensures
        ({
            let n = facts.take(i).filter(p).len() as int;
            &&& 0 <= n < facts.filter(p).len()
            &&& facts.filter(p)[n] == facts[i]
            &&& forall|k: int|
                0 <= k < facts.filter(p).len() && k != n ==> #[trigger] facts.filter(p)[k]
                    != facts[i]
            &&& facts.remove(i).filter(p) == facts.filter(p).remove(n)
        }),
{
    lemma_filter_remove(facts, p, i);
    lemma_filter_distinct(facts, p);
}

/// Takes `fact` out of what is filed under `key`, where it stands once, at `place`.
fn unfile(
    column: &mut HashMap<u128, Vec<Rc<Fact>>>,
    key: u128,
    fact: &Fact,
    Ghost(place): Ghost<int>,
)
    requires
        old(column)@.contains_key(key),
        0 <= place < old(column)@[key]@.len(),
        rc_facts_view(old(column)@[key]@)[place] == fact@,
        forall|k: int|
            0 <= k < old(column)@[key]@.len() && k != place ==> #[trigger] rc_facts_view(
                old(column)@[key]@,
            )[k] != fact@,
    ensures
        final(column)@.dom() == old(column)@.dom(),
        forall|k: u128| k != key && old(column)@.contains_key(k) ==> final(column)@[k] == old(column)@[k],
        rc_facts_view(final(column)@[key]@) == rc_facts_view(old(column)@[key]@).remove(place),
{
    broadcast use vstd::std_specs::hash::group_hash_axioms;

    match column.remove(&key) {
        Some(bucket) => {
            let mut bucket = bucket;
            take_out(&mut bucket, fact, Ghost(place));
            column.insert(key, bucket);
            assert(final(column)@.dom() =~= old(column)@.dom());
        },
        None => {},
    }
}

/// The facts of `list` that agree with `pattern`, in order.
fn select(list: &Vec<Rc<Fact>>, pattern: &Fact) -> (found: Vec<Rc<Fact>>)
    requires
        forall|k: int|
            0 <= k < list@.len() ==> pattern@.args.len() <= (#[trigger] rc_facts_view(
                list@,
            )[k]).args.len(),
    ensures
        rc_facts_view(found@) == rc_facts_view(list@).filter(agrees_with(pattern@)),
{
    let ghost test = agrees_with(pattern@);
    let ghost all = rc_facts_view(list@);
    let mut found: Vec<Rc<Fact>> = Vec::new();
    let mut i: usize = 0;
    proof {
        lemma_filter_none(all.take(0), test);
        assert(rc_facts_view(found@) =~= Seq::empty());
    }
    while i < list.len()
        invariant
            i <= list.len(),
            all == rc_facts_view(list@),
            forall|k: int|
                0 <= k < list@.len() ==> pattern@.args.len() <= (#[trigger] all[k]).args.len(),
            test == agrees_with(pattern@),
            rc_facts_view(found@) == all.take(i as int).filter(test),
        decreases list.len() - i,
    {
        let candidate = &list[i];
        let ghost c = all[i as int];
        assert(c == (**candidate)@);
        let mut fits = true;
        let mut k: usize = 0;
        while k < pattern.args.len()
            invariant
                k <= pattern.args.len(),
                c == (**candidate)@,
                pattern@.args.len() <= c.args.len(),
                fits == (forall|m: int|
                    0 <= m < k ==> (#[trigger] pattern@.args[m]).var || c.args[m]
                        == pattern@.args[m]),
            decreases pattern.args.len() - k,
        {
            assert(pattern@.args[k as int] == pattern.args@[k as int]@);
            assert(c.args[k as int] == candidate.args@[k as int]@);
            if !pattern.args[k].is_var() && candidate.args[k] != pattern.args[k] {
                fits = false;
            }
            k += 1;
        }
        proof {
            assert(fits == agrees(pattern@, c));
            assert(all.take(i + 1) =~= all.take(i as int).push(c));
            all.take(i as int).lemma_filter_push(c, test);
        }
        let ghost before = rc_facts_view(found@);
        if fits {
            found.push(Rc::clone(candidate));
            assert(rc_facts_view(found@) =~= before.push(c));
        }
        i += 1;
    }
    assert(all.take(list.len() as int) =~= all);
    found
}

} // verus!
