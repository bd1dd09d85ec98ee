use rust_kb::error::KbError;
use rust_kb::knowledge_base::KnowledgeBase;
use rust_kb::parser::{parse_kb, ParsedFact, ParsedKnowledgeBase, ParsedRule};
use rust_kb::statement::{Fact, Rule, Statement, StoredStatement};
use rust_kb::symbols::{Symbol, SymbolTable};
use rust_kb::unify::{apply_bindings, has_var, try_bind};
use std::rc::Rc;

fn fact(kb: &mut KnowledgeBase, text: &str) -> Fact {
    kb.create_fact(&format!("fact: {};", text)).unwrap()
}

fn rule(kb: &mut KnowledgeBase, text: &str) -> Rule {
    kb.create_rule(&format!("rule: {};", text)).unwrap()
}

fn names(answers: &Vec<Vec<(Symbol, Symbol)>>) -> Vec<Vec<(String, String)>> {
    let mut all: Vec<Vec<(String, String)>> = answers
        .iter()
        .map(|list| {
            list.iter()
                .map(|pair| (pair.0.as_str().to_string(), pair.1.as_str().to_string()))
                .collect()
        })
        .collect();
    all.sort();
    all
}

fn pairs(list: Vec<Vec<(&str, &str)>>) -> Vec<Vec<(String, String)>> {
    let mut all: Vec<Vec<(String, String)>> = list
        .into_iter()
        .map(|l| l.into_iter().map(|p| (p.0.to_string(), p.1.to_string())).collect())
        .collect();
    all.sort();
    all
}

#[test]
fn asserting_a_fact_twice_is_refused_and_keeps_one_copy() {
    let mut kb = KnowledgeBase::new();
    let f = fact(&mut kb, "(isa Bob boy)");
    assert!(kb.assert_statement(f.clone()).is_ok());
    match kb.assert_statement(f.clone()) {
        Err(e) => assert_eq!(e, KbError::Duplicate),
        Ok(_) => panic!("a second copy was stored"),
    }
    assert_eq!(kb.facts().len(), 1);
    assert_eq!(kb.ask(&f), Ok(true));
}

#[test]
fn asserting_a_rule_twice_is_refused() {
    let mut kb = KnowledgeBase::new();
    let r = rule(&mut kb, "((isa ?x boy)) -> (cool ?x)");
    assert!(kb.assert_statement(r.clone()).is_ok());
    assert_eq!(kb.assert_rule(r.clone()).err(), Some(KbError::Duplicate));
    assert_eq!(kb.add_rule(r.clone()).err(), Some(KbError::Duplicate));
    assert_eq!(kb.rules().len(), 1);
}

#[test]
fn a_retracted_fact_is_neither_stored_nor_an_answer() {
    let mut kb = KnowledgeBase::new();
    let f = fact(&mut kb, "(isa Bob boy)");
    let other = fact(&mut kb, "(isa Tom boy)");
    kb.assert_statement(f.clone()).unwrap();
    kb.assert_statement(other.clone()).unwrap();
    let pattern = fact(&mut kb, "(isa ?who boy)");
    assert_eq!(names(&kb.query(&pattern)), pairs(vec![vec![("?who", "Bob")], vec![("?who", "Tom")]]));
    assert_eq!(kb.retract(f.clone()), Ok(()));
    assert_eq!(kb.ask(&f), Ok(false));
    assert_eq!(names(&kb.query(&pattern)), pairs(vec![vec![("?who", "Tom")]]));
    assert_eq!(kb.get_query_facts(&pattern).len(), 1);
    assert_eq!(kb.facts().len(), 1);
}

#[test]
fn a_fact_and_a_rule_derive_in_either_order() {
    let mut kb = KnowledgeBase::new();
    let f = fact(&mut kb, "(isa Bob boy)");
    let r = rule(&mut kb, "((isa ?x boy)) -> (cool ?x)");
    let goal = fact(&mut kb, "(cool Bob)");
    kb.assert_statement(f).unwrap();
    assert_eq!(kb.ask(&goal), Ok(false));
    kb.assert_statement(r).unwrap();
    assert_eq!(kb.ask(&goal), Ok(true));

    let mut kb = KnowledgeBase::new();
    let f = fact(&mut kb, "(isa Bob boy)");
    let r = rule(&mut kb, "((isa ?x boy)) -> (cool ?x)");
    let goal = fact(&mut kb, "(cool Bob)");
    kb.assert_statement(r).unwrap();
    assert_eq!(kb.ask(&goal), Ok(false));
    kb.assert_statement(f).unwrap();
    assert_eq!(kb.ask(&goal), Ok(true));
}

#[test]
fn a_rule_with_two_premises_is_used_up_one_premise_at_a_time() {
    let mut kb = KnowledgeBase::new();
    let f = fact(&mut kb, "(isa Bob boy)");
    let r = rule(&mut kb, "((isa ?x boy) (was ?x ?y)) -> (cool ?y)");
    kb.assert_statement(f).unwrap();
    kb.assert_statement(r).unwrap();
    let left = rule(&mut kb, "((was Bob ?y)) -> (cool ?y)");
    assert!(kb.contains_rule(&left));
    assert_eq!(kb.rules().len(), 2);
    let any_cool = fact(&mut kb, "(cool ?who)");
    assert_eq!(kb.query(&any_cool).len(), 0);
    assert_eq!(kb.facts().len(), 1);
    let was = fact(&mut kb, "(was Bob tall)");
    kb.assert_statement(was).unwrap();
    let goal = fact(&mut kb, "(cool tall)");
    assert_eq!(kb.ask(&goal), Ok(true));
    assert_eq!(names(&kb.query(&any_cool)), pairs(vec![vec![("?who", "tall")]]));
}

#[test]
fn only_the_first_premise_is_matched() {
    let mut kb = KnowledgeBase::new();
    let was = fact(&mut kb, "(was Bob tall)");
    let r = rule(&mut kb, "((isa ?x boy) (was ?x ?y)) -> (cool ?y)");
    kb.assert_statement(was).unwrap();
    kb.assert_statement(r).unwrap();
    assert_eq!(kb.rules().len(), 1);
    let f = fact(&mut kb, "(isa Bob boy)");
    kb.assert_statement(f).unwrap();
    let goal = fact(&mut kb, "(cool tall)");
    assert_eq!(kb.ask(&goal), Ok(true));
    assert_eq!(kb.rules().len(), 2);
}

#[test]
fn a_derived_fact_names_what_produced_it() {
    let mut kb = KnowledgeBase::new();
    let f = fact(&mut kb, "(isa Bob boy)");
    let r = rule(&mut kb, "((isa ?x boy)) -> (cool ?x)");
    kb.assert_statement(f.clone()).unwrap();
    kb.assert_statement(r.clone()).unwrap();
    assert_eq!(kb.facts().len(), 2);
    let derived = kb.facts()[1].clone();
    assert_eq!(derived.pred.as_str(), "cool");
    assert_eq!(derived.supported_by.len(), 1);
    assert_eq!(*derived.supported_by[0].0, f);
    assert_eq!(*derived.supported_by[0].1, r);
    assert_eq!(derived.asserted(), false);
    assert_eq!(kb.facts()[0].asserted(), true);
}

#[test]
fn retracting_a_fact_takes_what_it_derived_with_it() {
    let mut kb = KnowledgeBase::new();
    let a = fact(&mut kb, "(isa Bob boy)");
    let r = rule(&mut kb, "((isa ?x boy)) -> (cool ?x)");
    let r2 = rule(&mut kb, "((cool ?x)) -> (liked ?x)");
    kb.assert_statement(a.clone()).unwrap();
    kb.assert_statement(r.clone()).unwrap();
    kb.assert_statement(r2.clone()).unwrap();
    let b = (*kb.facts()[1]).clone();
    let c = (*kb.facts()[2]).clone();
    assert_eq!(c.pred.as_str(), "liked");
    assert_eq!(kb.retract(b.clone()), Err(KbError::Unsupportable));
    assert_eq!(kb.facts().len(), 3);
    assert_eq!(kb.retract(a.clone()), Ok(()));
    assert_eq!(kb.ask(&a), Ok(false));
    assert_eq!(kb.ask(&b), Ok(false));
    assert_eq!(kb.ask(&c), Ok(false));
    assert_eq!(kb.facts().len(), 0);
    assert!(kb.contains_rule(&r));
    assert!(kb.contains_rule(&r2));
}

#[test]
fn retracting_a_rule_takes_what_it_derived_with_it() {
    let mut kb = KnowledgeBase::new();
    let a = fact(&mut kb, "(isa Bob boy)");
    let r = rule(&mut kb, "((isa ?x boy)) -> (cool ?x)");
    kb.assert_statement(a.clone()).unwrap();
    kb.assert_statement(r.clone()).unwrap();
    let goal = fact(&mut kb, "(cool Bob)");
    assert_eq!(kb.ask(&goal), Ok(true));
    assert_eq!(kb.retract(r.clone()), Ok(()));
    assert_eq!(kb.ask(&goal), Ok(false));
    assert_eq!(kb.ask(&a), Ok(true));
    assert_eq!(kb.contains_rule(&r), false);
    let any_cool = fact(&mut kb, "(cool ?who)");
    assert_eq!(kb.query(&any_cool).len(), 0);
}

#[test]
fn retracting_a_fact_takes_the_rules_that_it_left_with_it() {
    let mut kb = KnowledgeBase::new();
    let a = fact(&mut kb, "(isa Bob boy)");
    let w = fact(&mut kb, "(was Bob tall)");
    let r = rule(&mut kb, "((isa ?x boy) (was ?x ?y)) -> (cool ?y)");
    kb.assert_statement(a.clone()).unwrap();
    kb.assert_statement(w.clone()).unwrap();
    kb.assert_statement(r.clone()).unwrap();
    let goal = fact(&mut kb, "(cool tall)");
    assert_eq!(kb.ask(&goal), Ok(true));
    assert_eq!(kb.rules().len(), 2);
    let left = (*kb.rules()[1]).clone();
    assert_eq!(kb.retract(left.clone()), Err(KbError::Unsupportable));
    assert_eq!(kb.retract(a.clone()), Ok(()));
    assert_eq!(kb.rules().len(), 1);
    assert!(kb.contains_rule(&r));
    assert_eq!(kb.ask(&goal), Ok(false));
    assert_eq!(kb.ask(&w), Ok(true));
}

#[test]
fn retracting_what_is_not_stored_fails() {
    let mut kb = KnowledgeBase::new();
    let a = fact(&mut kb, "(isa Bob boy)");
    let r = rule(&mut kb, "((isa ?x boy)) -> (cool ?x)");
    assert_eq!(kb.retract(a.clone()), Err(KbError::NotFound));
    assert_eq!(kb.retract(r.clone()), Err(KbError::NotFound));
    assert_eq!(kb.remove_fact(&a), Err(KbError::NotFound));
    assert_eq!(kb.remove_rule(&r), Err(KbError::NotFound));
}

#[test]
fn a_derived_fact_cannot_be_retracted_by_its_bare_statement() {
    let mut kb = KnowledgeBase::new();
    let a = fact(&mut kb, "(isa Bob boy)");
    let r = rule(&mut kb, "((isa ?x boy)) -> (cool ?x)");
    kb.assert_statement(a).unwrap();
    kb.assert_statement(r).unwrap();
    let bare = fact(&mut kb, "(cool Bob)");
    assert_eq!(kb.ask(&bare), Ok(true));
    assert_eq!(kb.retract(bare.clone()), Err(KbError::NotFound));
    assert_eq!(kb.ask(&bare), Ok(true));
    assert_eq!(kb.assert_statement(bare).err(), Some(KbError::Duplicate));
}

#[test]
fn facts_with_variables_are_refused() {
    let mut kb = KnowledgeBase::new();
    let p = fact(&mut kb, "(isa ?x boy)");
    assert_eq!(kb.assert_statement(p.clone()).err(), Some(KbError::GroundnessViolation));
    assert_eq!(kb.assert_fact(p.clone()).err(), Some(KbError::GroundnessViolation));
    assert_eq!(kb.add_fact(p.clone()).err(), Some(KbError::GroundnessViolation));
    assert_eq!(kb.retract(p.clone()), Err(KbError::GroundnessViolation));
    assert_eq!(kb.remove_fact(&p), Err(KbError::GroundnessViolation));
    assert_eq!(kb.facts().len(), 0);
}

#[test]
fn a_conclusion_with_a_variable_left_is_discarded() {
    let mut kb = KnowledgeBase::new();
    let a = fact(&mut kb, "(isa Bob boy)");
    let r = rule(&mut kb, "((isa ?x boy)) -> (likes ?x ?y)");
    kb.assert_statement(a).unwrap();
    kb.assert_statement(r).unwrap();
    assert_eq!(kb.facts().len(), 1);
    assert_eq!(kb.rules().len(), 1);
}

#[test]
fn rules_that_feed_each_other_come_to_rest() {
    let mut kb = KnowledgeBase::new();
    let r1 = rule(&mut kb, "((p ?x)) -> (q ?x)");
    let r2 = rule(&mut kb, "((q ?x)) -> (p ?x)");
    kb.assert_statement(r1).unwrap();
    kb.assert_statement(r2).unwrap();
    let a = fact(&mut kb, "(p a)");
    kb.assert_statement(a).unwrap();
    let qa = fact(&mut kb, "(q a)");
    assert_eq!(kb.ask(&qa), Ok(true));
    assert_eq!(kb.facts().len(), 2);
}

#[test]
fn unification_fails_on_predicate_arity_and_constant() {
    let mut kb = KnowledgeBase::new();
    let f = fact(&mut kb, "(isa Bob boy)");
    let other_pred = fact(&mut kb, "(was Bob boy)");
    let other_arity = fact(&mut kb, "(isa Bob)");
    let other_constant = fact(&mut kb, "(isa Bob girl)");
    assert_eq!(kb.try_bind(&f, &other_pred).err(), Some(KbError::BindFailure));
    assert_eq!(kb.try_bind(&f, &other_arity).err(), Some(KbError::BindFailure));
    assert_eq!(kb.try_bind(&f, &other_constant).err(), Some(KbError::BindFailure));
    assert_eq!(try_bind(&other_constant, &f).err(), Some(KbError::BindFailure));
    assert!(kb.try_bind(&f, &f).is_ok());
}

#[test]
fn a_variable_is_not_bound_to_a_variable() {
    let mut kb = KnowledgeBase::new();
    let a = fact(&mut kb, "(isa ?x boy)");
    let b = fact(&mut kb, "(isa ?y boy)");
    assert_eq!(kb.try_bind(&a, &b).err(), Some(KbError::BindFailure));
    let same = kb.try_bind(&a, &a).unwrap();
    assert_eq!(same.contains_key(&kb.intern_string("?x")), false);
}

#[test]
fn a_later_binding_replaces_an_earlier_one() {
    let mut kb = KnowledgeBase::new();
    let f = fact(&mut kb, "(p a b)");
    let pattern = fact(&mut kb, "(p ?x ?x)");
    let bindings = kb.try_bind(&f, &pattern).unwrap();
    let x = kb.intern_string("?x");
    assert_eq!(bindings.get(&x).unwrap().as_str(), "b");
    let opposite = kb.try_bind(&pattern, &f).unwrap();
    assert_eq!(opposite.get(&x).unwrap().as_str(), "b");
    let filled = apply_bindings(&pattern, None, &bindings);
    assert_eq!(filled, fact(&mut kb, "(p b b)"));
}

#[test]
fn unbound_variables_stay_when_bindings_are_applied() {
    let mut kb = KnowledgeBase::new();
    let f = fact(&mut kb, "(isa Bob boy)");
    let pattern = fact(&mut kb, "(isa ?x boy)");
    let bindings = kb.try_bind(&f, &pattern).unwrap();
    let target = fact(&mut kb, "(likes ?x ?y Bob)");
    let filled = kb.apply_bindings(&target, None, &bindings);
    assert_eq!(filled, fact(&mut kb, "(likes Bob ?y Bob)"));
    assert_eq!(has_var(&filled), true);
    assert_eq!(filled.supported_by.len(), 0);
    let r = rule(&mut kb, "((isa ?x boy)) -> (cool ?x)");
    let supported =
        kb.apply_bindings(&target, Some((Rc::new(f.clone()), Rc::new(r.clone()))), &bindings);
    assert_eq!(supported.supported_by.len(), 1);
    assert_eq!(*supported.supported_by[0].0, f);
    assert_eq!(*supported.supported_by[0].1, r);
    assert!(supported.same_atom(&filled));
    assert_ne!(supported, filled);
}

#[test]
fn a_query_binds_the_variables_of_the_pattern_in_order() {
    let mut kb = KnowledgeBase::new();
    for text in ["(isa a b)", "(isa c d)", "(isa a c)", "(isa a d)", "(isa f g)"] {
        let f = fact(&mut kb, text);
        kb.assert_statement(f).unwrap();
    }
    let one = fact(&mut kb, "(isa f ?b)");
    assert_eq!(names(&kb.query(&one)), pairs(vec![vec![("?b", "g")]]));
    let three = fact(&mut kb, "(isa a ?b)");
    assert_eq!(
        names(&kb.query(&three)),
        pairs(vec![vec![("?b", "b")], vec![("?b", "c")], vec![("?b", "d")]])
    );
    let second = fact(&mut kb, "(isa ?a d)");
    assert_eq!(names(&kb.query(&second)), pairs(vec![vec![("?a", "c")], vec![("?a", "a")]]));
    let both = fact(&mut kb, "(isa ?a ?b)");
    assert_eq!(
        names(&kb.query(&both)),
        pairs(vec![
            vec![("?a", "a"), ("?b", "b")],
            vec![("?a", "c"), ("?b", "d")],
            vec![("?a", "a"), ("?b", "c")],
            vec![("?a", "a"), ("?b", "d")],
            vec![("?a", "f"), ("?b", "g")],
        ])
    );
}

#[test]
fn a_query_over_three_arguments_answers_with_every_fact() {
    let mut kb = KnowledgeBase::new();
    for text in ["(isa a b c)", "(isa c d c)", "(isa a c c)", "(isa a d c)", "(isa f g c)"] {
        let f = fact(&mut kb, text);
        kb.assert_statement(f).unwrap();
    }
    let all = fact(&mut kb, "(isa ?a ?b ?c)");
    let answers = kb.query(&all);
    assert_eq!(answers.len(), 5);
    for list in answers.iter() {
        assert_eq!(list.len(), 3);
        assert_eq!(list[0].0.as_str(), "?a");
        assert_eq!(list[1].0.as_str(), "?b");
        assert_eq!(list[2].0.as_str(), "?c");
        assert_eq!(list[2].1.as_str(), "c");
    }
}

#[test]
fn a_query_without_variables_answers_with_an_empty_list_for_a_stored_fact() {
    let mut kb = KnowledgeBase::new();
    let f = fact(&mut kb, "(isa a b)");
    kb.assert_statement(f.clone()).unwrap();
    assert_eq!(kb.query(&f), vec![vec![]]);
    let g = fact(&mut kb, "(isa a c)");
    assert_eq!(kb.query(&g).len(), 0);
}

#[test]
fn a_constant_that_is_filed_nowhere_answers_nothing() {
    let mut kb = KnowledgeBase::new();
    for text in ["(isa a b)", "(isa a c)"] {
        let f = fact(&mut kb, text);
        kb.assert_statement(f).unwrap();
    }
    let unseen_second = fact(&mut kb, "(isa a zzz)");
    assert_eq!(kb.query(&unseen_second).len(), 0);
    let unseen_first = fact(&mut kb, "(isa zzz ?x)");
    assert_eq!(kb.query(&unseen_first).len(), 0);
    let unseen_pred = fact(&mut kb, "(was a ?x)");
    assert_eq!(kb.query(&unseen_pred).len(), 0);
    let b_first = fact(&mut kb, "(isa b ?x)");
    assert_eq!(kb.query(&b_first).len(), 0);
}

#[test]
fn a_pattern_of_another_length_answers_nothing() {
    let mut kb = KnowledgeBase::new();
    let f = fact(&mut kb, "(isa a b)");
    kb.assert_statement(f).unwrap();
    let longer = fact(&mut kb, "(isa ?x ?y ?z)");
    let shorter = fact(&mut kb, "(isa ?x)");
    assert_eq!(kb.query(&longer).len(), 0);
    assert_eq!(kb.query(&shorter).len(), 0);
}

#[test]
fn the_first_fact_with_arguments_decides_the_depth_of_the_index() {
    let mut kb = KnowledgeBase::new();
    let two = fact(&mut kb, "(isa a b)");
    let three = fact(&mut kb, "(isa a b c)");
    let one = fact(&mut kb, "(isa a)");
    kb.assert_statement(two.clone()).unwrap();
    kb.assert_statement(three.clone()).unwrap();
    kb.assert_statement(one.clone()).unwrap();
    assert_eq!(kb.ask(&two), Ok(true));
    assert_eq!(kb.ask(&three), Ok(true));
    assert_eq!(kb.ask(&one), Ok(true));
    let pattern = fact(&mut kb, "(isa ?x ?y)");
    assert_eq!(
        names(&kb.query(&pattern)),
        pairs(vec![vec![("?x", "a"), ("?y", "b")], vec![("?x", "a"), ("?y", "b")]])
    );
    let short = fact(&mut kb, "(isa ?x)");
    assert_eq!(kb.query(&short).len(), 0);
    assert_eq!(kb.retract(three), Ok(()));
    assert_eq!(kb.retract(one), Ok(()));
    assert_eq!(names(&kb.query(&pattern)), pairs(vec![vec![("?x", "a"), ("?y", "b")]]));
    assert_eq!(kb.retract(two), Ok(()));
    assert_eq!(kb.query(&pattern).len(), 0);
}

#[test]
fn a_fact_without_arguments_is_stored_and_not_filed() {
    let mut kb = KnowledgeBase::new();
    let mut st = SymbolTable::new();
    let bare = Fact::new(st.intern("rains"), vec![], vec![]);
    kb.assert_statement(bare.clone()).unwrap();
    assert_eq!(kb.ask(&bare), Ok(true));
    assert_eq!(kb.query(&bare).len(), 0);
    let with = Fact::new(st.intern("rains"), vec![st.intern("today")], vec![]);
    kb.assert_statement(with.clone()).unwrap();
    let pattern = Fact::new(st.intern("rains"), vec![st.intern("?when")], vec![]);
    assert_eq!(names(&kb.query(&pattern)), pairs(vec![vec![("?when", "today")]]));
    assert_eq!(kb.retract(bare.clone()), Ok(()));
    assert_eq!(kb.ask(&bare), Ok(false));
    assert_eq!(kb.ask(&with), Ok(true));
}

#[test]
fn a_fact_asserted_again_after_retraction_is_found_again() {
    let mut kb = KnowledgeBase::new();
    let f = fact(&mut kb, "(isa a b)");
    let g = fact(&mut kb, "(isa c b)");
    kb.assert_statement(f.clone()).unwrap();
    kb.assert_statement(g.clone()).unwrap();
    kb.retract(f.clone()).unwrap();
    kb.assert_statement(f.clone()).unwrap();
    let pattern = fact(&mut kb, "(isa ?x b)");
    assert_eq!(names(&kb.query(&pattern)), pairs(vec![vec![("?x", "c")], vec![("?x", "a")]]));
    assert_eq!(kb.facts().len(), 2);
}

#[test]
fn a_store_is_filled_with_facts_and_then_rules() {
    let mut st = SymbolTable::new();
    let inst = Fact::new(st.intern("inst"), vec![st.intern("a"), st.intern("b")], vec![]);
    let isa = Fact::new(st.intern("isa"), vec![st.intern("b"), st.intern("c")], vec![]);
    let open = Fact::new(st.intern("isa"), vec![st.intern("?x"), st.intern("c")], vec![]);
    let r = Rule::new(
        vec![
            Fact::new(st.intern("inst"), vec![st.intern("?x"), st.intern("?y")], vec![]),
            Fact::new(st.intern("isa"), vec![st.intern("?y"), st.intern("?z")], vec![]),
        ],
        Fact::new(st.intern("inst"), vec![st.intern("?x"), st.intern("?z")], vec![]),
        vec![],
    );
    let goal = Fact::new(st.intern("inst"), vec![st.intern("a"), st.intern("c")], vec![]);
    let kb = KnowledgeBase::new_filled(
        vec![inst.clone(), isa.clone(), open.clone(), inst.clone()],
        vec![r.clone(), r.clone()],
        st,
    );
    assert_eq!(kb.ask(&inst), Ok(true));
    assert_eq!(kb.ask(&isa), Ok(true));
    assert_eq!(kb.ask(&open), Ok(false));
    assert!(kb.contains_rule(&r));
    assert_eq!(kb.ask(&goal), Ok(true));
    assert_eq!(kb.facts().len(), 3);
    assert_eq!(kb.rules().len(), 3);
}

#[test]
fn a_store_is_built_from_a_parsed_knowledge_base() {
    let text = b"kb {\nfact: (inst a b)\nfact: (isa b c)\nfact: (isa ?x c)\nrule: ((inst ?x ?y) (isa ?y ?z)) -> (inst ?x ?z)\n}";
    let parsed = parse_kb(text).unwrap();
    let mut kb = KnowledgeBase::from(parsed);
    assert_eq!(kb.facts().len(), 3);
    assert_eq!(kb.rules().len(), 3);
    let names_of: Vec<Vec<String>> = kb
        .facts()
        .iter()
        .map(|f| {
            let mut v = vec![f.pred.as_str().to_string()];
            v.extend(f.args.iter().map(|a| a.as_str().to_string()));
            v
        })
        .collect();
    assert_eq!(
        names_of,
        vec![vec!["inst", "a", "b"], vec!["isa", "b", "c"], vec!["inst", "a", "c"]]
    );
    let pattern = Fact::new(
        kb.intern_string("inst"),
        vec![kb.intern_string("a"), kb.intern_string("?what")],
        vec![],
    );
    assert_eq!(
        names(&kb.query(&pattern)),
        pairs(vec![vec![("?what", "b")], vec![("?what", "c")]])
    );
}

#[test]
fn facts_and_rules_are_made_from_parsed_records() {
    let mut st = SymbolTable::new();
    let pf = ParsedFact::new("isa".to_string(), vec!["?x".to_string(), "boy".to_string()]);
    let f = Fact::from(&pf, &mut st);
    assert_eq!(f.pred.as_str(), "isa");
    assert_eq!(f.pred.is_var(), false);
    assert_eq!(f.args.len(), 2);
    assert_eq!(f.args[0].as_str(), "?x");
    assert_eq!(f.args[0].is_var(), true);
    assert_eq!(f.args[1].as_str(), "boy");
    assert_eq!(f.contains_variable(), true);
    assert_eq!(f.supported_by.len(), 0);

    let raw = Fact::from_raw(&vec!["cool".to_string(), "Bob".to_string()], &mut st);
    assert_eq!(raw.pred.as_str(), "cool");
    assert_eq!(raw.args.len(), 1);
    assert_eq!(raw.args[0].as_str(), "Bob");
    assert_eq!(raw.contains_variable(), false);
    let empty = Fact::from_raw(&vec![], &mut st);
    assert_eq!(empty.pred.as_str(), "");
    assert_eq!(empty.args.len(), 0);

    let pr = ParsedRule::new(
        vec![
            vec!["isa".to_string(), "?x".to_string(), "boy".to_string()],
            vec!["was".to_string(), "?x".to_string()],
        ],
        vec!["cool".to_string(), "?x".to_string()],
    );
    let r = Rule::from(&pr, &mut st);
    assert_eq!(r.lhs.len(), 2);
    assert_eq!(r.lhs[0], f);
    assert_eq!(r.lhs[1].pred.as_str(), "was");
    assert_eq!(r.rhs.pred.as_str(), "cool");
    assert_eq!(r.rhs.args[0], f.args[0]);
    assert_eq!(r.asserted(), true);
    let pkb = ParsedKnowledgeBase::new(vec![pf], vec![pr]);
    assert_eq!(pkb.facts.len(), 1);
    assert_eq!(pkb.rules.len(), 1);
}

#[test]
fn a_statement_says_which_kind_it_is() {
    let mut kb = KnowledgeBase::new();
    let f = fact(&mut kb, "(isa Bob boy)");
    let r = rule(&mut kb, "((isa ?x boy)) -> (cool ?x)");
    assert_eq!(f.to_fact(), Some(f.clone()));
    assert!(f.to_rule().is_none());
    assert_eq!(r.to_rule(), Some(r.clone()));
    assert!(r.to_fact().is_none());
    match kb.assert_statement(f.clone()).unwrap() {
        StoredStatement::Fact(stored) => assert_eq!(*stored, f),
        StoredStatement::Rule(_) => panic!("a fact was asserted"),
    }
    let stored = kb.assert_statement(r.clone()).unwrap();
    assert_eq!(stored.to_rule(), Some(r.clone()));
    assert!(stored.to_fact().is_none());
    assert_eq!(kb.retract(stored), Ok(()));
    assert_eq!(kb.contains_rule(&r), false);
}

#[test]
fn rules_are_told_apart_by_premises_and_conclusion() {
    let mut kb = KnowledgeBase::new();
    let r = rule(&mut kb, "((isa ?x boy)) -> (cool ?x)");
    let other_premise = rule(&mut kb, "((isa ?x girl)) -> (cool ?x)");
    let other_conclusion = rule(&mut kb, "((isa ?x boy)) -> (nice ?x)");
    let longer = rule(&mut kb, "((isa ?x boy) (isa ?x boy)) -> (cool ?x)");
    kb.assert_statement(r.clone()).unwrap();
    assert!(kb.contains_rule(&r));
    assert!(!kb.contains_rule(&other_premise));
    assert!(!kb.contains_rule(&other_conclusion));
    assert!(!kb.contains_rule(&longer));
    assert!(r.same_clause(&r.clone()));
    assert!(!r.same_clause(&longer));
    assert_ne!(r, other_premise);
}

#[test]
fn stores_with_the_same_statements_are_equal() {
    let mut st = SymbolTable::new();
    let f = Fact::new(st.intern("isa"), vec![st.intern("a"), st.intern("b")], vec![]);
    let g = Fact::new(st.intern("isa"), vec![st.intern("c"), st.intern("d")], vec![]);
    let mut one = KnowledgeBase::new();
    let mut two = KnowledgeBase::new();
    assert!(one == two);
    one.assert_statement(f.clone()).unwrap();
    assert!(one != two);
    two.assert_statement(f.clone()).unwrap();
    assert!(one == two);
    one.assert_statement(g.clone()).unwrap();
    two.retract(f.clone()).unwrap();
    two.assert_statement(g.clone()).unwrap();
    two.assert_statement(f.clone()).unwrap();
    assert!(one != two);
}

#[test]
fn inferring_by_hand_fires_one_pair() {
    let mut kb = KnowledgeBase::new();
    let f = fact(&mut kb, "(isa Bob boy)");
    let r = rule(&mut kb, "((isa ?x boy)) -> (cool ?x)");
    let stored_fact = kb.add_fact(f).unwrap();
    let stored_rule = kb.add_rule(r).unwrap();
    let goal = fact(&mut kb, "(cool Bob)");
    assert_eq!(kb.ask(&goal), Ok(false));
    kb.infer(stored_fact.clone(), stored_rule.clone());
    assert_eq!(kb.ask(&goal), Ok(true));
    kb.infer(stored_fact, stored_rule);
    assert_eq!(kb.facts().len(), 2);
}

#[test]
fn a_store_keeps_the_table_that_it_is_given() {
    let mut st = SymbolTable::new();
    let isa = st.intern("isa");
    let bob = st.intern("Bob");
    let mut kb = KnowledgeBase::with_symbols(st);
    assert_eq!(kb.facts().len(), 0);
    assert_eq!(kb.rules().len(), 0);
    assert_eq!(kb.intern_string("isa"), isa);
    assert_eq!(kb.intern_string("Bob"), bob);
    let f = Fact::new(isa.clone(), vec![bob.clone()], vec![]);
    kb.assert_statement(f).unwrap();
    let again = Fact::new(kb.intern_string("isa"), vec![kb.intern_string("Bob")], vec![]);
    assert_eq!(kb.ask(&again), Ok(true));
}
