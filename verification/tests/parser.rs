use rust_kb::error::KbError;
use rust_kb::parser::{
    fact, kb, parse_fact, parse_kb, parse_rule, rule, Parsed, ParsedFact, ParsedKnowledgeBase,
    ParsedRule,
};

fn words(list: Vec<&str>) -> Vec<String> {
    list.into_iter().map(|w| String::from(w)).collect()
}

#[test]
fn parser_parse_fact() {
    let input = &b"fact: (isa cube box)eol"[..];
    match fact(input) {
        Parsed::Done(parsed, rest) => {
            assert_eq!(&input[rest..], &b"eol"[..]);
            assert_eq!(
                parsed,
                ParsedFact::new(String::from("isa"), words(vec!["cube", "box"]))
            );
        }
        other => panic!("{:?}", other),
    }
}

#[test]
fn parser_parse_rule() {
    let input = &b"rule: ((inst ?x ?y) (isa ?y ?z)) -> (inst ?x ?z)eol"[..];
    match rule(input) {
        Parsed::Done(parsed, rest) => {
            assert_eq!(&input[rest..], &b"eol"[..]);
            assert_eq!(
                parsed,
                ParsedRule::new(
                    vec![words(vec!["inst", "?x", "?y"]), words(vec!["isa", "?y", "?z"])],
                    words(vec!["inst", "?x", "?z"]),
                )
            );
        }
        other => panic!("{:?}", other),
    }
}

#[test]
fn parser_parse_kb() {
    let input = &b"kb {\nfact: (isa cube box)\nfact: (isa box container)\nrule: ((inst ?x ?y) (isa ?y ?z)) -> (inst ?x ?z)\n}"[..];
    match kb(input) {
        Parsed::Done(parsed, rest) => {
            assert_eq!(&input[rest..], &b"}"[..]);
            assert_eq!(
                parsed,
                ParsedKnowledgeBase {
                    facts: vec![
                        ParsedFact::new(String::from("isa"), words(vec!["cube", "box"])),
                        ParsedFact::new(String::from("isa"), words(vec!["box", "container"])),
                    ],
                    rules: vec![ParsedRule::new(
                        vec![words(vec!["inst", "?x", "?y"]), words(vec!["isa", "?y", "?z"])],
                        words(vec!["inst", "?x", "?z"]),
                    )],
                }
            );
        }
        other => panic!("{:?}", other),
    }
}

#[test]
fn a_fact_must_be_followed_by_something() {
    assert_eq!(fact(b"fact: (isa cube box)"), Parsed::Short);
    assert_eq!(fact(b"fact: (isa cube box)  \n"), Parsed::Short);
    assert_eq!(parse_fact(b"fact: (isa cube box)"), Err(KbError::ParseFailure));
    assert!(parse_fact(b"fact: (isa cube box);").is_ok());
}

#[test]
fn a_fact_that_breaks_off_is_short() {
    assert_eq!(fact(b""), Parsed::Short);
    assert_eq!(fact(b"   "), Parsed::Short);
    assert_eq!(fact(b"fa"), Parsed::Short);
    assert_eq!(fact(b"fact: (isa cube"), Parsed::Short);
    assert_eq!(fact(b"fact: (isa cube box"), Parsed::Short);
    assert_eq!(fact(b"fact: (isa ?"), Parsed::Short);
}

#[test]
fn a_fact_that_is_not_one_is_wrong() {
    assert_eq!(fact(b"rule: (isa cube box);"), Parsed::Wrong);
    assert_eq!(fact(b"fact (isa cube box);"), Parsed::Wrong);
    assert_eq!(fact(b"fact: isa cube box;"), Parsed::Wrong);
    assert_eq!(fact(b"fact: (isa);"), Parsed::Wrong);
    assert_eq!(fact(b"fact: (isa cube, box);"), Parsed::Wrong);
    assert_eq!(fact(b"fact: (?p cube box);"), Parsed::Wrong);
    assert_eq!(fact(b"fact: (1sa cube box);"), Parsed::Wrong);
    assert_eq!(fact(b"fact: (isa 1cube);"), Parsed::Wrong);
    assert_eq!(fact(b"fact: ();"), Parsed::Wrong);
}

#[test]
fn white_space_may_stand_before_every_piece() {
    let input = &b" \t\r\nfact:\n(\tisa\r\ncube   box2 ??v9 ) ;"[..];
    match fact(input) {
        Parsed::Done(parsed, rest) => {
            assert_eq!(&input[rest..], &b";"[..]);
            assert_eq!(
                parsed,
                ParsedFact::new(String::from("isa"), words(vec!["cube", "box2", "??v9"]))
            );
        }
        other => panic!("{:?}", other),
    }
}

#[test]
fn pieces_need_no_white_space_between_them() {
    let input = &b"fact:(isa?x?y);"[..];
    match fact(input) {
        Parsed::Done(parsed, rest) => {
            assert_eq!(rest, 14);
            assert_eq!(parsed, ParsedFact::new(String::from("isa"), words(vec!["?x", "?y"])));
        }
        other => panic!("{:?}", other),
    }
}

#[test]
fn the_predicate_of_a_fact_is_letters_only() {
    assert_eq!(fact(b"fact: (isa2 cube);"), Parsed::Wrong);
    match fact(b"fact: (isA cube);") {
        Parsed::Done(parsed, _) => assert_eq!(parsed.pred, "isA"),
        other => panic!("{:?}", other),
    }
}

#[test]
fn a_rule_needs_premises_an_arrow_and_a_conclusion() {
    assert_eq!(rule(b"rule: () -> (cool ?x);"), Parsed::Wrong);
    assert_eq!(rule(b"rule: ((isa ?x boy)) (cool ?x);"), Parsed::Wrong);
    assert_eq!(rule(b"rule: ((isa ?x boy)) -> cool;"), Parsed::Wrong);
    assert_eq!(rule(b"rule: ((isa ?x boy)) -> (cool ?x)"), Parsed::Short);
    assert_eq!(rule(b"rule: ((isa ?x boy)) -"), Parsed::Short);
    assert_eq!(parse_rule(b"fact: (isa cube box);"), Err(KbError::ParseFailure));
}

#[test]
fn a_part_of_a_rule_may_begin_with_a_variable() {
    match parse_rule(b"rule: ((?p a)) -> (q);") {
        Ok(parsed) => {
            assert_eq!(parsed.lhs, vec![words(vec!["?p", "a"])]);
            assert_eq!(parsed.rhs, words(vec!["q"]));
        }
        Err(e) => panic!("{:?}", e),
    }
}

#[test]
fn a_knowledge_base_needs_facts_and_then_rules() {
    assert_eq!(kb(b"kb { rule: ((a ?x)) -> (b ?x) }"), Parsed::Wrong);
    assert_eq!(kb(b"kb { fact: (a b) }"), Parsed::Wrong);
    assert_eq!(kb(b"kb fact: (a b) rule: ((a ?x)) -> (b ?x) }"), Parsed::Wrong);
    assert_eq!(kb(b"kb { fact: (a b) rule: ((a ?x)) -> (b ?x)"), Parsed::Short);
    assert_eq!(kb(b"kb { fact: (a b) rule: ((a ?x)) -> (b ?x) rule: ((a"), Parsed::Short);
    assert_eq!(parse_kb(b"kb"), Err(KbError::ParseFailure));
    match parse_kb(b"kb { fact: (a b) rule: ((a ?x)) -> (b ?x) rule: ((b ?x)) -> (c ?x) }") {
        Ok(parsed) => {
            assert_eq!(parsed.facts.len(), 1);
            assert_eq!(parsed.rules.len(), 2);
        }
        Err(e) => panic!("{:?}", e),
    }
}

#[test]
fn reading_stops_at_what_is_not_a_rule() {
    let input = &b"kb { fact: (a b) rule: ((a ?x)) -> (b ?x) fact: (c d) }"[..];
    match kb(input) {
        Parsed::Done(parsed, rest) => {
            assert_eq!(parsed.facts.len(), 1);
            assert_eq!(parsed.rules.len(), 1);
            assert_eq!(&input[rest..], &b"fact: (c d) }"[..]);
        }
        other => panic!("{:?}", other),
    }
}
