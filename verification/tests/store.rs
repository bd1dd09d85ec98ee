use rust_kb::error::KbError;
use rust_kb::knowledge_base::KnowledgeBase;
use rust_kb::statement::{Fact, Rule, Statement};
use rust_kb::symbols::{Symbol, SymbolTable};
use rust_kb::unify::Bindings;
use std::rc::Rc;

type QueryBinding = Vec<(Symbol, Symbol)>;

#[test]
fn knowledge_base_test_add_fact() {
    let mut kb = KnowledgeBase::new_filled(vec![], vec![], SymbolTable::new());
    let new_fact = Fact::new(
        kb.intern_string("isa"),
        vec![kb.intern_string("Bob"), kb.intern_string("boy")],
        vec![],
    );

    match kb.add_fact(new_fact.clone()) {
        Ok(_) => {}
        Err(e) => println!("{}", e.message()),
    }

    assert_eq!(kb.contains_fact(&new_fact), true);
}

#[test]
fn knowledge_base_test_remove_fact() {
    let mut st = SymbolTable::new();
    let new_fact = Fact::new(st.intern("isa"), vec![st.intern("Bob"), st.intern("boy")], vec![]);
    let mut kb = KnowledgeBase::new_filled(vec![new_fact.clone()], vec![], st);
    match kb.remove_fact(&new_fact) {
        Ok(_) => {}
        Err(e) => println!("{}", e.message()),
    }

    assert_eq!(kb.contains_fact(&new_fact), false);
    assert_eq!(kb.facts().is_empty(), true);
}

#[test]
fn knowledge_base_test_ask_fact_already_in_kb() {
    let mut st = SymbolTable::new();
    let new_fact = Fact::new(st.intern("isa"), vec![st.intern("Bob"), st.intern("boy")], vec![]);
    let kb = KnowledgeBase::new_filled(vec![new_fact.clone()], vec![], st);
    assert_eq!(kb.ask(&new_fact), Ok(true))
}

#[test]
fn knowledge_base_test_ask_fact_not_in_fb() {
    let mut st = SymbolTable::new();
    let new_fact = Fact::new(st.intern("isa"), vec![st.intern("Bob"), st.intern("boy")], vec![]);
    let kb = KnowledgeBase::new_filled(vec![], vec![], st);
    assert_eq!(kb.ask(&new_fact), Ok(false));
}

#[test]
fn knowledge_base_test_assert_and_infer() {
    let mut kb = KnowledgeBase::new_filled(vec![], vec![], SymbolTable::new());
    let new_fact = Fact::new(
        kb.intern_string("isa"),
        vec![kb.intern_string("Bob"), kb.intern_string("boy")],
        vec![],
    );

    match kb.assert_statement(new_fact.clone()) {
        Ok(_) => {}
        Err(e) => println!("{}", e.message()),
    }

    let new_rule = Rule::new(
        vec![Fact::new(
            kb.intern_string("isa"),
            vec![kb.intern_string("?x"), kb.intern_string("boy")],
            vec![],
        )],
        Fact::new(kb.intern_string("cool"), vec![kb.intern_string("?x")], vec![]),
        vec![],
    );

    match kb.assert_statement(new_rule.clone()) {
        Ok(_) => {}
        Err(e) => println!("{}", e.message()),
    }

    let result_fact = Fact::new(kb.intern_string("cool"), vec![kb.intern_string("Bob")], vec![]);
    assert_eq!(kb.contains_fact(&new_fact), true);
    assert_eq!(kb.contains_rule(&new_rule), true);
    assert_eq!(kb.contains_fact(&result_fact), true);
}

#[test]
fn knowledge_base_test_infer_rule() {
    let mut kb = KnowledgeBase::new_filled(vec![], vec![], SymbolTable::new());
    let new_fact = Fact::new(
        kb.intern_string("isa"),
        vec![kb.intern_string("Bob"), kb.intern_string("boy")],
        vec![],
    );

    match kb.assert_statement(new_fact.clone()) {
        Ok(_) => {}
        Err(e) => println!("{}", e.message()),
    }

    let new_rule = Rule::new(
        vec![
            Fact::new(
                kb.intern_string("isa"),
                vec![kb.intern_string("?x"), kb.intern_string("boy")],
                vec![],
            ),
            Fact::new(
                kb.intern_string("was"),
                vec![kb.intern_string("?x"), kb.intern_string("?y")],
                vec![],
            ),
        ],
        Fact::new(kb.intern_string("cool"), vec![kb.intern_string("?y")], vec![]),
        vec![],
    );

    match kb.assert_statement(new_rule.clone()) {
        Ok(_) => {}
        Err(e) => println!("{}", e.message()),
    }

    let result_rule = Rule::new(
        vec![Fact::new(
            kb.intern_string("was"),
            vec![kb.intern_string("Bob"), kb.intern_string("?y")],
            vec![],
        )],
        Fact::new(kb.intern_string("cool"), vec![kb.intern_string("?y")], vec![]),
        vec![],
    );
    assert_eq!(kb.contains_fact(&new_fact), true);
    assert_eq!(kb.contains_rule(&new_rule), true);
    assert_eq!(kb.contains_rule(&result_rule), true);
}

#[test]
fn knowledge_base_test_bind() {
    let mut kb = KnowledgeBase::new_filled(vec![], vec![], SymbolTable::new());
    let fact1 = Fact::new(
        kb.intern_string("isa"),
        vec![kb.intern_string("Bob"), kb.intern_string("boy")],
        vec![],
    );

    let fact2 = Fact::new(
        kb.intern_string("isa"),
        vec![kb.intern_string("?x"), kb.intern_string("boy")],
        vec![],
    );

    let bindings = match kb.try_bind(&fact1, &fact2) {
        Ok(lst) => lst,
        Err(e) => {
            println!("{}", e.message());
            Bindings::new()
        }
    };

    assert!(bindings.contains_key(&kb.intern_string("?x")));

    let new_rule = Rule::new(
        vec![Fact::new(
            kb.intern_string("isa"),
            vec![kb.intern_string("?x"), kb.intern_string("boy")],
            vec![],
        )],
        Fact::new(kb.intern_string("cool"), vec![kb.intern_string("?x")], vec![]),
        vec![],
    );

    let result_fact = kb.apply_bindings(&new_rule.rhs, None, &bindings);

    assert_eq!(
        result_fact,
        Fact::new(kb.intern_string("cool"), vec![kb.intern_string("Bob")], vec![])
    );
}

#[test]
fn knowledge_base_test_has_var() {
    let mut kb = KnowledgeBase::new_filled(vec![], vec![], SymbolTable::new());

    let fact = Fact::new(
        kb.intern_string("isa"),
        vec![kb.intern_string("?x"), kb.intern_string("boy")],
        vec![],
    );

    assert_eq!(true, kb.has_var(&fact));

    let fact = Fact::new(
        kb.intern_string("isa"),
        vec![kb.intern_string("Bob"), kb.intern_string("boy")],
        vec![],
    );

    assert_eq!(false, kb.has_var(&fact));
}

#[test]
fn knowledge_base_empty_test() {
    let mut kb = KnowledgeBase::new_filled(vec![], vec![], SymbolTable::new());
    let f = Fact::new(
        kb.intern_string("isa"),
        vec![kb.intern_string("?a"), kb.intern_string("?b")],
        vec![],
    );
    let a = kb.query(&f);

    let b: Vec<QueryBinding> = vec![];
    assert_eq!(a, b);
}

#[test]
fn knowledge_base_single_binding_test() {
    let mut kb = KnowledgeBase::new_filled(vec![], vec![], SymbolTable::new());
    let facts = vec![
        vec!["isa", "a", "b"],
        vec!["isa", "c", "d"],
        vec!["isa", "a", "c"],
        vec!["isa", "a", "d"],
        vec!["isa", "f", "g"],
    ];

    for fact in facts {
        let f = Fact::new(
            kb.intern_string(fact[0]),
            vec![kb.intern_string(fact[1]), kb.intern_string(fact[2])],
            vec![],
        );
        let _ = kb.assert_statement(f);
    }

    let f = Fact::new(
        kb.intern_string("isa"),
        vec![kb.intern_string("f"), kb.intern_string("?b")],
        vec![],
    );
    let a = kb.query(&f);
    let b: Vec<QueryBinding> = vec![vec![(kb.intern_string("?b"), kb.intern_string("g"))]];
    assert_eq!(a, b);
}

#[test]
fn knowledge_base_multi_binding_test() {
    let mut kb = KnowledgeBase::new_filled(vec![], vec![], SymbolTable::new());
    let facts = vec![
        vec!["isa", "a", "b", "c"],
        vec!["isa", "c", "d", "c"],
        vec!["isa", "a", "c", "c"],
        vec!["isa", "a", "d", "c"],
        vec!["isa", "f", "g", "c"],
    ];

    for fact in facts {
        let f = Fact::new(
            kb.intern_string(fact[0]),
            vec![
                kb.intern_string(fact[1]),
                kb.intern_string(fact[2]),
                kb.intern_string(fact[3]),
            ],
            vec![],
        );
        let _ = kb.assert_statement(f);
    }

    let f = Fact::new(
        kb.intern_string("isa"),
        vec![kb.intern_string("?a"), kb.intern_string("?b"), kb.intern_string("c")],
        vec![],
    );

    assert_eq!(kb.query(&f).len(), 5);
}

#[test]
fn lib_test_add_fact() {
    let mut kb = KnowledgeBase::new();

    if let Ok(new_fact) = kb.create_fact("fact: (isa Bob boy);") {
        match kb.add_fact(new_fact.clone()) {
            Ok(_) => {}
            Err(e) => println!("{}", e.message()),
        }

        assert_eq!(kb.contains_fact(&new_fact), true);
    } else {
        panic!("the fact should parse");
    }
}

#[test]
fn lib_test_remove_fact() {
    let mut kb = KnowledgeBase::new();

    if let Ok(new_fact) = kb.create_fact("fact: (isa Bob boy);") {
        match kb.add_fact(new_fact.clone()) {
            Ok(_) => {}
            Err(e) => println!("{}", e.message()),
        }

        match kb.remove_fact(&new_fact) {
            Ok(_) => {}
            Err(e) => println!("{}", e.message()),
        }

        assert_eq!(kb.contains_fact(&new_fact), false);
        assert_eq!(kb.facts().is_empty(), true);
    } else {
        panic!("the fact should parse");
    }
}

#[test]
fn lib_test_ask_fact_already_in_kb() {
    let mut kb = KnowledgeBase::new();
    if let Ok(new_fact) = kb.create_fact("fact: (isa Bob boy);") {
        match kb.add_fact(new_fact.clone()) {
            Ok(_) => {}
            Err(e) => println!("{}", e.message()),
        }
        assert_eq!(kb.ask(&new_fact), Ok(true));
    } else {
        panic!("the fact should parse");
    }
}

#[test]
fn lib_test_ask_fact_not_in_fb() {
    let mut kb = KnowledgeBase::new();
    if let Ok(new_fact) = kb.create_fact("fact: (isa Bob boy);") {
        assert_eq!(kb.ask(&new_fact), Ok(false));
    } else {
        panic!("the fact should parse");
    }
}

#[test]
fn lib_test_assert_and_infer() {
    let mut kb = KnowledgeBase::new();
    if let Ok(new_fact) = kb.create_fact("fact: (isa Bob boy);") {
        match kb.assert_statement(new_fact.clone()) {
            Ok(_) => {}
            Err(e) => println!("{}", e.message()),
        }

        if let Ok(new_rule) = kb.create_rule("rule: ((isa ?x boy)) -> (cool ?x);") {
            match kb.assert_statement(new_rule.clone()) {
                Ok(_) => {}
                Err(e) => println!("{}", e.message()),
            }

            if let Ok(result_fact) = kb.create_fact("fact: (cool Bob);") {
                assert_eq!(kb.contains_fact(&new_fact), true);
                assert_eq!(kb.contains_rule(&new_rule), true);
                assert_eq!(kb.contains_fact(&result_fact), true);
                return;
            }
        }
    }
    panic!("the statements should parse");
}

#[test]
fn lib_test_infer_rule() {
    let mut kb = KnowledgeBase::new();
    if let Ok(new_fact) = kb.create_fact("fact: (isa Bob boy);") {
        match kb.assert_statement(new_fact.clone()) {
            Ok(_) => {}
            Err(e) => println!("{}", e.message()),
        }

        if let Ok(new_rule) = kb.create_rule("rule: ((isa ?x boy) (was ?x ?y)) -> (cool ?y);") {
            match kb.assert_statement(new_rule.clone()) {
                Ok(_) => {}
                Err(e) => println!("{}", e.message()),
            }

            if let Ok(result_rule) = kb.create_rule("rule: ((was Bob ?y)) -> (cool ?y);") {
                assert_eq!(kb.contains_fact(&new_fact), true);
                assert_eq!(kb.contains_rule(&new_rule), true);
                assert_eq!(kb.contains_rule(&result_rule), true);
                return;
            }
        }
    }
    panic!("the statements should parse");
}

#[test]
fn lib_test_bind() {
    let mut kb = KnowledgeBase::new();
    if let Ok(fact1) = kb.create_fact("fact: (isa Bob boy);") {
        if let Ok(fact2) = kb.create_fact("fact: (isa ?x boy);") {
            let bindings = match kb.try_bind(&fact1, &fact2) {
                Ok(lst) => lst,
                Err(e) => {
                    println!("{}", e.message());
                    Bindings::new()
                }
            };

            assert!(bindings.contains_key(&kb.intern_string("?x")));

            if let Ok(new_rule) = kb.create_rule("rule: ((isa ?x boy)) -> (cool ?x);") {
                let result_fact = kb.apply_bindings(&new_rule.rhs, None, &bindings);

                assert_eq!(
                    result_fact,
                    Fact::new(kb.intern_string("cool"), vec![kb.intern_string("Bob")], vec![])
                );
                return;
            }
        }
    }
    panic!("the statements should parse");
}

#[test]
fn lib_test_has_var() {
    let mut kb = KnowledgeBase::new();

    if let Ok(fact) = kb.create_fact("fact: (isa ?x boy);") {
        assert_eq!(true, kb.has_var(&fact));

        if let Ok(fact2) = kb.create_fact("fact: (isa Bob boy);") {
            assert_eq!(false, kb.has_var(&fact2));
            return;
        }
    }
    panic!("the statements should parse");
}

#[test]
fn test_retract_inferred() {
    let mut kb = KnowledgeBase::new();

    if let Ok(new_fact) = kb.create_fact("fact: (isa Bob boy);") {
        let rc_fact = match kb.assert_statement(new_fact.clone()) {
            Ok(_f) => Some(_f),
            Err(e) => {
                println!("{}", e.message());
                None
            }
        };

        if let Ok(new_rule) = kb.create_rule("rule: ((isa ?x boy)) -> (cool ?x);") {
            let rc_rule = match kb.assert_statement(new_rule.clone()) {
                Ok(_r) => Some(_r),
                Err(e) => {
                    println!("{}", e.message());
                    None
                }
            };

            let result_fact = Fact::new(
                kb.intern_string("cool"),
                vec![kb.intern_string("Bob")],
                vec![(
                    Rc::new(rc_fact.unwrap().to_fact().unwrap()),
                    Rc::new(rc_rule.unwrap().to_rule().unwrap()),
                )],
            );
            assert_eq!(kb.contains_fact(&new_fact), true);
            assert_eq!(kb.contains_rule(&new_rule), true);
            assert_eq!(kb.contains_fact(&result_fact), true);

            for f in kb.facts().iter() {
                println!("{:?}\n\n", f)
            }

            assert!(kb.retract(new_fact.clone()).is_ok());

            assert_eq!(kb.contains_fact(&new_fact), false);
            assert_eq!(kb.contains_rule(&new_rule), true);
            assert_eq!(kb.contains_fact(&result_fact), false);
            return;
        }
    }
    panic!("the statements should parse");
}

#[test]
fn lib_empty_test() {
    let mut kb = KnowledgeBase::new();
    if let Ok(f) = kb.create_fact("fact: (isa ?a ?b);") {
        let a = kb.query(&f);
        let b: Vec<QueryBinding> = vec![];

        assert_eq!(a, b);
    } else {
        panic!("the fact should parse");
    }
}

#[test]
fn lib_single_binding_test() {
    let mut kb = KnowledgeBase::new();

    if let Ok(f1) = kb.create_fact("fact: (isa a b);") {
        if let Ok(f2) = kb.create_fact("fact: (isa c d);") {
            if let Ok(f3) = kb.create_fact("fact: (isa a c);") {
                if let Ok(f4) = kb.create_fact("fact: (isa a d);") {
                    if let Ok(f5) = kb.create_fact("fact: (isa f g);") {
                        let facts = vec![f1, f2, f3, f4, f5];

                        for fact in facts.iter() {
                            match kb.assert_statement(fact.clone()) {
                                Ok(_) => {}
                                Err(e) => println!("{}", e.message()),
                            }
                        }

                        if let Ok(f) = kb.create_fact("fact: (isa f ?b);") {
                            let a = kb.query(&f);
                            let b: Vec<QueryBinding> =
                                vec![vec![(kb.intern_string("?b"), kb.intern_string("g"))]];

                            assert_eq!(a, b);
                            return;
                        }
                    }
                }
            }
        }
    }
    panic!("the statements should parse");
}

#[test]
fn lib_multi_binding_test() {
    let mut kb = KnowledgeBase::new();
    if let Ok(f1) = kb.create_fact("fact: (isa a b c);") {
        if let Ok(f2) = kb.create_fact("fact: (isa c d c);") {
            if let Ok(f3) = kb.create_fact("fact: (isa a c c);") {
                if let Ok(f4) = kb.create_fact("fact: (isa a d c);") {
                    if let Ok(f5) = kb.create_fact("fact: (isa f g c);") {
                        let facts = vec![f1, f2, f3, f4, f5];

                        for fact in facts.iter() {
                            match kb.assert_statement(fact.clone()) {
                                Ok(_) => {}
                                Err(e) => println!("{}", e.message()),
                            }
                        }

                        if let Ok(f) = kb.create_fact("fact: (isa ?a ?b c);") {
                            assert_eq!(kb.query(&f).len(), 5);
                            return;
                        }
                    }
                }
            }
        }
    }
    panic!("the statements should parse");
}

#[test]
fn error_messages_name_the_failure() {
    assert_eq!(KbError::BindFailure.message(), "bind failed");
    assert_eq!(KbError::Duplicate.message(), "statement already in kb");
    assert_eq!(KbError::NotFound.message(), "statement does not exist in kb");
    assert_eq!(KbError::GroundnessViolation.message(), "statement has unbound variables");
    assert_eq!(
        KbError::Unsupportable.message(),
        "statement cannot be removed because it's supported"
    );
    assert_eq!(KbError::ParseFailure.message(), "failed to parse statement");
}
