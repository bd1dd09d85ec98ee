//! The text form of facts, rules and knowledge bases, and the records that
//! reading it gives.
//!
//! White space is blank, tab, carriage return and line feed, and may stand
//! before every piece. A name is a letter followed by letters and digits; a
//! variable is one or more question marks followed by letters and digits.
//! A fact reads `fact: (pred arg ...)`, a rule reads
//! `rule: ((pred arg ...) ...) -> (pred arg ...)`, and a knowledge base reads
//! `kb {` followed by one or more facts and then one or more rules. The input
//! is read as the beginning of a longer text: a piece that reaches the end of
//! the input before it is known to be over is not accepted, so a statement
//! must be followed by a byte that is not white space.

use crate::error::KbError;
use vstd::prelude::*;

verus! {

/// A parsed fact: the predicate's name and the arguments' names, in order.
#[derive(Debug, PartialEq, Clone)]
pub struct ParsedFact {
    pub pred: String,
    pub args: Vec<String>,
}

impl ParsedFact {
    pub fn new(pred: String, args: Vec<String>) -> (pf: ParsedFact)
        ensures
            pf.pred == pred,
            pf.args == args,
    {
        ParsedFact { pred, args }
    }
}

/// A parsed rule. Each part lists a predicate's name and then its arguments' names.
#[derive(Debug, PartialEq, Clone)]
pub struct ParsedRule {
    pub lhs: Vec<Vec<String>>,
    pub rhs: Vec<String>,
}

impl ParsedRule {
    pub fn new(lhs: Vec<Vec<String>>, rhs: Vec<String>) -> (pr: ParsedRule)
        ensures
            pr.lhs == lhs,
            pr.rhs == rhs,
    {
        ParsedRule { lhs, rhs }
    }
}

/// A parsed knowledge base: its facts, then its rules.
#[derive(Debug, PartialEq)]
pub struct ParsedKnowledgeBase {
    pub facts: Vec<ParsedFact>,
    pub rules: Vec<ParsedRule>,
}

impl ParsedKnowledgeBase {
    pub fn new(facts: Vec<ParsedFact>, rules: Vec<ParsedRule>) -> (pkb: ParsedKnowledgeBase)
        ensures
            pkb.facts == facts,
            pkb.rules == rules,
    {
        ParsedKnowledgeBase { facts, rules }
    }
}

/// How reading a piece at some place ends.
#[derive(Debug, PartialEq)]
pub enum Parsed<T> {
    /// The piece was read; the rest of the input begins at the number.
    Done(T, usize),
    /// What stands there is not the piece.
    Wrong,
    /// The input ended before the piece was known to be over.
    Short,
}

/// How reading a piece ends, as the logic sees it.
pub ghost enum Scan<T> {
    Done(T, int),
    Wrong,
    Short,
}

/// The kinds of byte that the text form tells apart.
#[derive(Clone, Copy)]
pub enum Class {
    Space,
    Letter,
    LetterOrDigit,
    QuestionMark,
}

/// The fixed pieces of the text form.
#[derive(Clone, Copy)]
pub enum Tag {
    Fact,
    Rule,
    Kb,
    Open,
    Close,
    Brace,
    Arrow,
}

/// A letter of the ASCII alphabet.
pub open spec fn is_letter(b: u8) -> bool {
    (0x41 <= b && b <= 0x5A) || (0x61 <= b && b <= 0x7A)
}

/// An ASCII digit.
pub open spec fn is_digit(b: u8) -> bool {
    0x30 <= b && b <= 0x39
}

/// `nom::is_alphabetic`: whether the byte is an ASCII letter.
pub assume_specification[ nom::is_alphabetic ](chr: u8) -> (r: bool)
    ensures
        r == is_letter(chr),
;

/// `nom::is_alphanumeric`: whether the byte is an ASCII letter or digit.
pub assume_specification[ nom::is_alphanumeric ](chr: u8) -> (r: bool)
    ensures
        r == (is_letter(chr) || is_digit(chr)),
;

/// `String::push`: appends one character.
#[verifier::external_body]
fn push_char(text: &mut String, c: char)
    ensures
        final(text)@ == old(text)@.push(c),
{
    text.push(c);
}

impl Class {
    /// Whether the byte is of the class.
    pub open spec fn holds(self, b: u8) -> bool {
        match self {
            Class::Space => b == 32 || b == 9 || b == 13 || b == 10,
            Class::Letter => is_letter(b),
            Class::LetterOrDigit => is_letter(b) || is_digit(b),
            Class::QuestionMark => b == 63,
        }
    }

    /// Whether the byte is of the class.
    pub fn test(self, b: u8) -> (r: bool)
        ensures
            r == self.holds(b),
    {
        match self {
            Class::Space => b == 32 || b == 9 || b == 13 || b == 10,
            Class::Letter => nom::is_alphabetic(b),
            Class::LetterOrDigit => nom::is_alphanumeric(b),
            Class::QuestionMark => b == 63,
        }
    }
}

impl Tag {
    /// The bytes of the piece.
    pub open spec fn bytes(self) -> Seq<u8> {
        match self {
            Tag::Fact => seq![102u8, 97u8, 99u8, 116u8, 58u8],
            Tag::Rule => seq![114u8, 117u8, 108u8, 101u8, 58u8],
            Tag::Kb => seq![107u8, 98u8],
            Tag::Open => seq![40u8],
            Tag::Close => seq![41u8],
            Tag::Brace => seq![123u8],
            Tag::Arrow => seq![45u8, 62u8],
        }
    }

    /// How many bytes the piece has.
    pub fn len(self) -> (n: usize)
        ensures
            n == self.bytes().len(),
            1 <= n <= 5,
    {
        match self {
            Tag::Fact => 5,
            Tag::Rule => 5,
            Tag::Kb => 2,
            Tag::Open => 1,
            Tag::Close => 1,
            Tag::Brace => 1,
            Tag::Arrow => 2,
        }
    }

    /// The byte of the piece at `k`.
    pub fn byte(self, k: usize) -> (b: u8)
        requires
            k < self.bytes().len(),
        ensures
            b == self.bytes()[k as int],
    {
        match self {
            Tag::Fact => if k == 0 {
                102
            } else if k == 1 {
                97
            } else if k == 2 {
                99
            } else if k == 3 {
                116
            } else {
                58
            },
            Tag::Rule => if k == 0 {
                114
            } else if k == 1 {
                117
            } else if k == 2 {
                108
            } else if k == 3 {
                101
            } else {
                58
            },
            Tag::Kb => if k == 0 {
                107
            } else {
                98
            },
            Tag::Open => 40,
            Tag::Close => 41,
            Tag::Brace => 123,
            Tag::Arrow => if k == 0 {
                45
            } else {
                62
            },
        }
    }
}

/// The text of a run of ASCII bytes.
pub open spec fn ascii(bytes: Seq<u8>) -> Seq<char> {
    Seq::new(bytes.len(), |k: int| bytes[k] as char)
}

/// A fact as it is spelled.
pub ghost struct FactText {
    pub pred: Seq<char>,
    pub args: Seq<Seq<char>>,
}

/// A rule as it is spelled: each part is its tokens.
pub ghost struct RuleText {
    pub lhs: Seq<Seq<Seq<char>>>,
    pub rhs: Seq<Seq<char>>,
}

/// A knowledge base as it is spelled.
pub ghost struct KbText {
    pub facts: Seq<FactText>,
    pub rules: Seq<RuleText>,
}

/// The texts of a list of strings.
pub open spec fn texts(v: Seq<String>) -> Seq<Seq<char>> {
    Seq::new(v.len(), |i: int| v[i]@)
}

/// The texts of a list of lists of strings.
pub open spec fn parts_texts(v: Seq<Vec<String>>) -> Seq<Seq<Seq<char>>> {
    Seq::new(v.len(), |i: int| texts(v[i]@))
}

impl View for ParsedFact {
    type V = FactText;

    open spec fn view(&self) -> FactText {
        FactText { pred: self.pred@, args: texts(self.args@) }
    }
}

impl View for ParsedRule {
    type V = RuleText;

    open spec fn view(&self) -> RuleText {
        RuleText { lhs: parts_texts(self.lhs@), rhs: texts(self.rhs@) }
    }
}

impl View for ParsedKnowledgeBase {
    type V = KbText;

    open spec fn view(&self) -> KbText {
        KbText {
            facts: Seq::new(self.facts@.len(), |i: int| self.facts@[i]@),
            rules: Seq::new(self.rules@.len(), |i: int| self.rules@[i]@),
        }
    }
}

/// Where the run of bytes of `class` that begins at `i` ends.
pub open spec fn run_end(s: Seq<u8>, i: int, class: Class) -> int
    decreases s.len() - i,
{
    if 0 <= i < s.len() && class.holds(s[i]) {
        run_end(s, i + 1, class)
    } else {
        i
    }
}

/// Reading a run of bytes of `class` at `i`. A run that reaches the end of
/// the input is not known to be over. Where `some` is set, an empty run is wrong.
pub open spec fn run(s: Seq<u8>, i: int, class: Class, some: bool) -> Scan<()> {
    let e = run_end(s, i, class);
    if e >= s.len() {
        Scan::Short
    } else if some && e == i {
        Scan::Wrong
    } else {
        Scan::Done((), e)
    }
}

/// Reading a fixed piece at `i`. It is wrong when a byte differs, and short
/// when the input ends within it.
pub open spec fn tag(s: Seq<u8>, i: int, t: Tag) -> Scan<()> {
    if exists|k: int| 0 <= k < t.bytes().len() && i + k < s.len() && s[i + k] != t.bytes()[k] {
        Scan::Wrong
    } else if s.len() - i < t.bytes().len() {
        Scan::Short
    } else {
        Scan::Done((), i + t.bytes().len())
    }
}

/// Reading white space and then a fixed piece.
pub open spec fn spaced_tag(s: Seq<u8>, i: int, t: Tag) -> Scan<()> {
    match run(s, i, Class::Space, false) {
        Scan::Done(_, j) => tag(s, j, t),
        Scan::Wrong => Scan::Wrong,
        Scan::Short => Scan::Short,
    }
}

/// Reading the letters and digits that end a name or a variable that began at `i`.
pub open spec fn token_tail(s: Seq<u8>, i: int, j: int) -> Scan<Seq<u8>> {
    match run(s, j, Class::LetterOrDigit, false) {
        Scan::Done(_, e) => Scan::Done(s.subrange(i, e), e),
        Scan::Wrong => Scan::Wrong,
        Scan::Short => Scan::Short,
    }
}

/// Reading a name or a variable at `i`.
pub open spec fn token(s: Seq<u8>, i: int) -> Scan<Seq<u8>> {
    match run(s, i, Class::Letter, true) {
        Scan::Done(_, j) => token_tail(s, i, j),
        Scan::Short => Scan::Short,
        Scan::Wrong => match run(s, i, Class::QuestionMark, true) {
            Scan::Done(_, j) => token_tail(s, i, j),
            Scan::Short => Scan::Short,
            Scan::Wrong => Scan::Wrong,
        },
    }
}

/// Reading white space and then a name or a variable.
pub open spec fn spaced_token(s: Seq<u8>, i: int) -> Scan<Seq<u8>> {
    match run(s, i, Class::Space, false) {
        Scan::Done(_, j) => token(s, j),
        Scan::Wrong => Scan::Wrong,
        Scan::Short => Scan::Short,
    }
}

/// One more piece in front of the pieces that were read after it.
pub open spec fn and_more<T>(first: T, rest: Scan<Seq<T>>) -> Scan<Seq<T>> {
    match rest {
        Scan::Done(others, k) => Scan::Done(seq![first] + others, k),
        Scan::Wrong => Scan::Wrong,
        Scan::Short => Scan::Short,
    }
}

/// What was read so far in front of what is read from here on.
pub open spec fn so_far_and<T>(so_far: Seq<T>, rest: Scan<Seq<T>>) -> Scan<Seq<T>> {
    match rest {
        Scan::Done(others, k) => Scan::Done(so_far + others, k),
        Scan::Wrong => Scan::Wrong,
        Scan::Short => Scan::Short,
    }
}

/// A list that must not be empty.
pub open spec fn some_of<T>(list: Scan<Seq<T>>) -> Scan<Seq<T>> {
    match list {
        Scan::Done(items, k) => if items.len() == 0 {
            Scan::Wrong
        } else {
            Scan::Done(items, k)
        },
        Scan::Wrong => Scan::Wrong,
        Scan::Short => Scan::Short,
    }
}

/// Reading names and variables from `i` on, as many as stand there.
pub open spec fn tokens(s: Seq<u8>, i: int) -> Scan<Seq<Seq<char>>>
    decreases s.len() - i,
{
    match spaced_token(s, i) {
        Scan::Done(t, e) => if i < e <= s.len() {
            and_more(ascii(t), tokens(s, e))
        } else {
            Scan::Done(Seq::empty(), i)
        },
        Scan::Wrong => Scan::Done(Seq::empty(), i),
        Scan::Short => Scan::Short,
    }
}

/// Reading white space at the end of a piece: something must follow it.
pub open spec fn closing<T>(s: Seq<u8>, value: T, i: int) -> Scan<T> {
    match run(s, i, Class::Space, false) {
        Scan::Done(_, j) => Scan::Done(value, j),
        Scan::Wrong => Scan::Wrong,
        Scan::Short => Scan::Short,
    }
}

/// Reading one part of a rule at `i`: `(` tokens `)`.
pub open spec fn part(s: Seq<u8>, i: int) -> Scan<Seq<Seq<char>>> {
    match spaced_tag(s, i, Tag::Open) {
        Scan::Done(_, a) => match some_of(tokens(s, a)) {
            Scan::Done(items, b) => match spaced_tag(s, b, Tag::Close) {
                Scan::Done(_, c) => closing(s, items, c),
                Scan::Wrong => Scan::Wrong,
                Scan::Short => Scan::Short,
            },
            Scan::Wrong => Scan::Wrong,
            Scan::Short => Scan::Short,
        },
        Scan::Wrong => Scan::Wrong,
        Scan::Short => Scan::Short,
    }
}

/// Reading parts of a rule from `i` on, as many as stand there.
pub open spec fn parts(s: Seq<u8>, i: int) -> Scan<Seq<Seq<Seq<char>>>>
    decreases s.len() - i,
{
    match part(s, i) {
        Scan::Done(p, e) => if i < e <= s.len() {
            and_more(p, parts(s, e))
        } else {
            Scan::Done(Seq::empty(), i)
        },
        Scan::Wrong => Scan::Done(Seq::empty(), i),
        Scan::Short => Scan::Short,
    }
}

/// Reading the predicate of a fact: white space and then letters.
pub open spec fn predicate(s: Seq<u8>, i: int) -> Scan<Seq<char>> {
    match run(s, i, Class::Space, false) {
        Scan::Done(_, j) => match run(s, j, Class::Letter, true) {
            Scan::Done(_, e) => Scan::Done(ascii(s.subrange(j, e)), e),
            Scan::Wrong => Scan::Wrong,
            Scan::Short => Scan::Short,
        },
        Scan::Wrong => Scan::Wrong,
        Scan::Short => Scan::Short,
    }
}

/// Reading a fact at `i`: `fact:` `(` predicate tokens `)`.
pub open spec fn fact_at(s: Seq<u8>, i: int) -> Scan<FactText> {
    match spaced_tag(s, i, Tag::Fact) {
        Scan::Done(_, a) => match spaced_tag(s, a, Tag::Open) {
            Scan::Done(_, b) => match predicate(s, b) {
                Scan::Done(pred, c) => match some_of(tokens(s, c)) {
                    Scan::Done(args, d) => match spaced_tag(s, d, Tag::Close) {
                        Scan::Done(_, e) => closing(s, FactText { pred, args }, e),
                        Scan::Wrong => Scan::Wrong,
                        Scan::Short => Scan::Short,
                    },
                    Scan::Wrong => Scan::Wrong,
                    Scan::Short => Scan::Short,
                },
                Scan::Wrong => Scan::Wrong,
                Scan::Short => Scan::Short,
            },
            Scan::Wrong => Scan::Wrong,
            Scan::Short => Scan::Short,
        },
        Scan::Wrong => Scan::Wrong,
        Scan::Short => Scan::Short,
    }
}

/// Reading a rule at `i`: `rule:` `(` parts `)` `->` part.
pub open spec fn rule_at(s: Seq<u8>, i: int) -> Scan<RuleText> {
    match spaced_tag(s, i, Tag::Rule) {
        Scan::Done(_, a) => match spaced_tag(s, a, Tag::Open) {
            Scan::Done(_, b) => match some_of(parts(s, b)) {
                Scan::Done(lhs, c) => match spaced_tag(s, c, Tag::Close) {
                    Scan::Done(_, d) => match spaced_tag(s, d, Tag::Arrow) {
                        Scan::Done(_, e) => match part(s, e) {
                            Scan::Done(rhs, f) => closing(s, RuleText { lhs, rhs }, f),
                            Scan::Wrong => Scan::Wrong,
                            Scan::Short => Scan::Short,
                        },
                        Scan::Wrong => Scan::Wrong,
                        Scan::Short => Scan::Short,
                    },
                    Scan::Wrong => Scan::Wrong,
                    Scan::Short => Scan::Short,
                },
                Scan::Wrong => Scan::Wrong,
                Scan::Short => Scan::Short,
            },
            Scan::Wrong => Scan::Wrong,
            Scan::Short => Scan::Short,
        },
        Scan::Wrong => Scan::Wrong,
        Scan::Short => Scan::Short,
    }
}

/// Reading facts from `i` on, as many as stand there.
pub open spec fn facts_from(s: Seq<u8>, i: int) -> Scan<Seq<FactText>>
    decreases s.len() - i,
{
    match fact_at(s, i) {
        Scan::Done(f, e) => if i < e <= s.len() {
            and_more(f, facts_from(s, e))
        } else {
            Scan::Done(Seq::empty(), i)
        },
        Scan::Wrong => Scan::Done(Seq::empty(), i),
        Scan::Short => Scan::Short,
    }
}

/// Reading rules from `i` on, as many as stand there.
pub open spec fn rules_from(s: Seq<u8>, i: int) -> Scan<Seq<RuleText>>
    decreases s.len() - i,
{
    match rule_at(s, i) {
        Scan::Done(r, e) => if i < e <= s.len() {
            and_more(r, rules_from(s, e))
        } else {
            Scan::Done(Seq::empty(), i)
        },
        Scan::Wrong => Scan::Done(Seq::empty(), i),
        Scan::Short => Scan::Short,
    }
}

/// Reading a knowledge base at `i`: `kb` `{` facts rules.
pub open spec fn kb_at(s: Seq<u8>, i: int) -> Scan<KbText> {
    match spaced_tag(s, i, Tag::Kb) {
        Scan::Done(_, a) => match spaced_tag(s, a, Tag::Brace) {
            Scan::Done(_, b) => match some_of(facts_from(s, b)) {
                Scan::Done(facts, c) => match some_of(rules_from(s, c)) {
                    Scan::Done(rules, d) => closing(s, KbText { facts, rules }, d),
                    Scan::Wrong => Scan::Wrong,
                    Scan::Short => Scan::Short,
                },
                Scan::Wrong => Scan::Wrong,
                Scan::Short => Scan::Short,
            },
            Scan::Wrong => Scan::Wrong,
            Scan::Short => Scan::Short,
        },
        Scan::Wrong => Scan::Wrong,
        Scan::Short => Scan::Short,
    }
}

/// What was read of a fact, as the logic sees it.
pub open spec fn fact_scan(r: Parsed<ParsedFact>) -> Scan<FactText> {
    match r {
        Parsed::Done(pf, at) => Scan::Done(pf@, at as int),
        Parsed::Wrong => Scan::Wrong,
        Parsed::Short => Scan::Short,
    }
}

/// What was read of a rule, as the logic sees it.
pub open spec fn rule_scan(r: Parsed<ParsedRule>) -> Scan<RuleText> {
    match r {
        Parsed::Done(pr, at) => Scan::Done(pr@, at as int),
        Parsed::Wrong => Scan::Wrong,
        Parsed::Short => Scan::Short,
    }
}

/// What was read of a knowledge base, as the logic sees it.
pub open spec fn kb_scan(r: Parsed<ParsedKnowledgeBase>) -> Scan<KbText> {
    match r {
        Parsed::Done(pkb, at) => Scan::Done(pkb@, at as int),
        Parsed::Wrong => Scan::Wrong,
        Parsed::Short => Scan::Short,
    }
}

/// What was read of a list of tokens, as the logic sees it.
pub open spec fn list_scan(r: Parsed<Vec<String>>) -> Scan<Seq<Seq<char>>> {
    match r {
        Parsed::Done(list, at) => Scan::Done(texts(list@), at as int),
        Parsed::Wrong => Scan::Wrong,
        Parsed::Short => Scan::Short,
    }
}

/// What was read of a place, as the logic sees it.
pub open spec fn place_scan(r: Parsed<()>) -> Scan<()> {
    match r {
        Parsed::Done(_, at) => Scan::Done((), at as int),
        Parsed::Wrong => Scan::Wrong,
        Parsed::Short => Scan::Short,
    }
}

/// A run that is read where a run has just begun ends where that run ends.
pub proof fn lemma_run_end_from(s: Seq<u8>, i: int, j: int, class: Class)
    requires
        0 <= i <= j <= s.len(),
        forall|k: int| i <= k < j ==> class.holds(#[trigger] s[k]),
    ensures
        run_end(s, i, class) == run_end(s, j, class),
    decreases j - i,
{
    if i < j {
        lemma_run_end_from(s, i + 1, j, class);
    }
}

/// Reads a run of bytes of `class` at `i`.
fn read_run(s: &[u8], i: usize, class: Class, some: bool) -> (r: Parsed<()>)
    requires
        i <= s@.len(),
    ensures
        place_scan(r) == run(s@, i as int, class, some),
        r matches Parsed::Done(_, e) ==> i <= e < s@.len(),
{
    let mut e: usize = i;
    while e < s.len() && class.test(s[e])
        invariant
            i <= e <= s@.len(),
            forall|k: int| i <= k < e ==> class.holds(#[trigger] s@[k]),
        decreases s@.len() - e,
    {
        e += 1;
    }
    proof {
        lemma_run_end_from(s@, i as int, e as int, class);
    }
    if e >= s.len() {
        Parsed::Short
    } else if some && e == i {
        Parsed::Wrong
    } else {
        Parsed::Done((), e)
    }
}

/// Reads a fixed piece at `i`.
fn read_tag(s: &[u8], i: usize, t: Tag) -> (r: Parsed<()>)
    requires
        i <= s@.len(),
    ensures
        place_scan(r) == tag(s@, i as int, t),
        r matches Parsed::Done(_, e) ==> i < e <= s@.len(),
{
    let n = t.len();
    let mut k: usize = 0;
    while k < n && k < s.len() - i
        invariant
            i <= s@.len(),
            n == t.bytes().len(),
            k <= n,
            k <= s@.len() - i,
            forall|m: int| 0 <= m < k ==> s@[i + m] == t.bytes()[m],
        decreases n - k,
    {
        if s[i + k] != t.byte(k) {
            return Parsed::Wrong;
        }
        k += 1;
    }
    if k < n {
        Parsed::Short
    } else {
        assert(k == n && i + n <= s@.len());
        assert(s@.len() <= usize::MAX) by {
            assert(s.len() == s@.len());
        }
        Parsed::Done((), i + n)
    }
}

/// Reads white space and then a fixed piece.
fn read_spaced_tag(s: &[u8], i: usize, t: Tag) -> (r: Parsed<()>)
    requires
        i <= s@.len(),
    ensures
        place_scan(r) == spaced_tag(s@, i as int, t),
        r matches Parsed::Done(_, e) ==> i < e <= s@.len(),
{
    match read_run(s, i, Class::Space, false) {
        Parsed::Done(_, j) => read_tag(s, j, t),
        Parsed::Wrong => Parsed::Wrong,
        Parsed::Short => Parsed::Short,
    }
}

/// The text of the bytes from `from` to `to`.
fn text_of(s: &[u8], from: usize, to: usize) -> (text: String)
    requires
        from <= to <= s@.len(),
    ensures
        text@ == ascii(s@.subrange(from as int, to as int)),
{
    let mut text = String::new();
    let mut k: usize = from;
    assert(text@ =~= ascii(s@.subrange(from as int, from as int)));
    while k < to
        invariant
            from <= k <= to <= s@.len(),
            text@ == ascii(s@.subrange(from as int, k as int)),
        decreases to - k,
    {
        push_char(&mut text, s[k] as char);
        assert(text@ =~= ascii(s@.subrange(from as int, k + 1)));
        k += 1;
    }
    text
}

/// Reads white space and then a name or a variable.
fn read_spaced_token(s: &[u8], i: usize) -> (r: Parsed<String>)
    requires
        i <= s@.len(),
    ensures
        match r {
            Parsed::Done(text, e) => i < e <= s@.len() && (spaced_token(s@, i as int) matches Scan::Done(
                t,
                end,
            ) && end == e && text@ == ascii(t)),
            Parsed::Wrong => spaced_token(s@, i as int) is Wrong,
            Parsed::Short => spaced_token(s@, i as int) is Short,
        },
{
    let j = match read_run(s, i, Class::Space, false) {
        Parsed::Done(_, j) => j,
        Parsed::Wrong => {
            return Parsed::Wrong;
        },
        Parsed::Short => {
            return Parsed::Short;
        },
    };
    let head = match read_run(s, j, Class::Letter, true) {
        Parsed::Done(_, head) => head,
        Parsed::Short => {
            return Parsed::Short;
        },
        Parsed::Wrong => match read_run(s, j, Class::QuestionMark, true) {
            Parsed::Done(_, head) => head,
            Parsed::Short => {
                return Parsed::Short;
            },
            Parsed::Wrong => {
                return Parsed::Wrong;
            },
        },
    };
    match read_run(s, head, Class::LetterOrDigit, false) {
        Parsed::Done(_, e) => Parsed::Done(text_of(s, j, e), e),
        Parsed::Wrong => Parsed::Wrong,
        Parsed::Short => Parsed::Short,
    }
}

/// Reads names and variables from `i` on, as many as stand there.
fn read_tokens(s: &[u8], i: usize) -> (r: Parsed<Vec<String>>)
    requires
        i <= s@.len(),
    ensures
        list_scan(r) == tokens(s@, i as int),
        r matches Parsed::Done(_, e) ==> i <= e <= s@.len(),
{
    let mut list: Vec<String> = Vec::new();
    let mut at: usize = i;
    assert(texts(list@) + Seq::<Seq<char>>::empty() =~= Seq::<Seq<char>>::empty());
    loop
        invariant
            i <= at <= s@.len(),
            tokens(s@, i as int) == so_far_and(texts(list@), tokens(s@, at as int)),
        decreases s@.len() - at,
    {
        match read_spaced_token(s, at) {
            Parsed::Done(text, e) => {
                proof {
                    let rest = tokens(s@, e as int);
                    let before = texts(list@);
                    assert(so_far_and(before, and_more(text@, rest)) == so_far_and(
                        before.push(text@),
                        rest,
                    )) by {
                        match rest {
                            Scan::Done(others, k) => {
                                assert(before + (seq![text@] + others) =~= before.push(text@)
                                    + others);
                            },
                            _ => {},
                        }
                    }
                }
                let ghost before = texts(list@);
                list.push(text);
                assert(texts(list@) =~= before.push(text@));
                at = e;
            },
            Parsed::Wrong => {
                assert(texts(list@) + Seq::<Seq<char>>::empty() =~= texts(list@));
                return Parsed::Done(list, at);
            },
            Parsed::Short => {
                return Parsed::Short;
            },
        }
    }
}

/// Reads white space at the end of a piece.
fn read_closing(s: &[u8], i: usize) -> (r: Parsed<()>)
    requires
        i <= s@.len(),
    ensures
        place_scan(r) == run(s@, i as int, Class::Space, false),
        r matches Parsed::Done(_, e) ==> i <= e < s@.len(),
{
    read_run(s, i, Class::Space, false)
}

/// Reads one part of a rule at `i`.
fn read_part(s: &[u8], i: usize) -> (r: Parsed<Vec<String>>)
    requires
        i <= s@.len(),
    ensures
        list_scan(r) == part(s@, i as int),
        r matches Parsed::Done(_, e) ==> i < e <= s@.len(),
{
    let a = match read_spaced_tag(s, i, Tag::Open) {
        Parsed::Done(_, a) => a,
        Parsed::Wrong => {
            return Parsed::Wrong;
        },
        Parsed::Short => {
            return Parsed::Short;
        },
    };
    let (items, b) = match read_tokens(s, a) {
        Parsed::Done(items, b) => (items, b),
        Parsed::Wrong => {
            return Parsed::Wrong;
        },
        Parsed::Short => {
            return Parsed::Short;
        },
    };
    if items.len() == 0 {
        return Parsed::Wrong;
    }
    let c = match read_spaced_tag(s, b, Tag::Close) {
        Parsed::Done(_, c) => c,
        Parsed::Wrong => {
            return Parsed::Wrong;
        },
        Parsed::Short => {
            return Parsed::Short;
        },
    };
    match read_closing(s, c) {
        Parsed::Done(_, d) => Parsed::Done(items, d),
        Parsed::Wrong => Parsed::Wrong,
        Parsed::Short => Parsed::Short,
    }
}

/// What was read of a list of parts, as the logic sees it.
pub open spec fn parts_scan(r: Parsed<Vec<Vec<String>>>) -> Scan<Seq<Seq<Seq<char>>>> {
    match r {
        Parsed::Done(list, at) => Scan::Done(parts_texts(list@), at as int),
        Parsed::Wrong => Scan::Wrong,
        Parsed::Short => Scan::Short,
    }
}

/// Reads parts of a rule from `i` on, as many as stand there.
fn read_parts(s: &[u8], i: usize) -> (r: Parsed<Vec<Vec<String>>>)
    requires
        i <= s@.len(),
    ensures
        parts_scan(r) == parts(s@, i as int),
        r matches Parsed::Done(_, e) ==> i <= e <= s@.len(),
{
    let mut list: Vec<Vec<String>> = Vec::new();
    let mut at: usize = i;
    assert(parts_texts(list@) + Seq::<Seq<Seq<char>>>::empty() =~= Seq::<Seq<Seq<char>>>::empty());
    loop
        invariant
            i <= at <= s@.len(),
            parts(s@, i as int) == so_far_and(parts_texts(list@), parts(s@, at as int)),
        decreases s@.len() - at,
    {
        match read_part(s, at) {
            Parsed::Done(p, e) => {
                proof {
                    let rest = parts(s@, e as int);
                    let before = parts_texts(list@);
                    assert(so_far_and(before, and_more(texts(p@), rest)) == so_far_and(
                        before.push(texts(p@)),
                        rest,
                    )) by {
                        match rest {
                            Scan::Done(others, k) => {
                                assert(before + (seq![texts(p@)] + others) =~= before.push(
                                    texts(p@),
                                ) + others);
                            },
                            _ => {},
                        }
                    }
                }
                let ghost before = parts_texts(list@);
                let ghost added = texts(p@);
                list.push(p);
                assert(parts_texts(list@) =~= before.push(added));
                at = e;
            },
            Parsed::Wrong => {
                assert(parts_texts(list@) + Seq::<Seq<Seq<char>>>::empty() =~= parts_texts(list@));
                return Parsed::Done(list, at);
            },
            Parsed::Short => {
                return Parsed::Short;
            },
        }
    }
}

/// Reads a fact at the beginning of `input`.
pub fn fact(input: &[u8]) -> (r: Parsed<ParsedFact>)
    ensures
        fact_scan(r) == fact_at(input@, 0),
{
    read_fact(input, 0)
}

/// Reads a fact at `i`.
fn read_fact(s: &[u8], i: usize) -> (r: Parsed<ParsedFact>)
    requires
        i <= s@.len(),
    ensures
        fact_scan(r) == fact_at(s@, i as int),
        r matches Parsed::Done(_, e) ==> i < e <= s@.len(),
{
    let a = match read_spaced_tag(s, i, Tag::Fact) {
        Parsed::Done(_, a) => a,
        Parsed::Wrong => {
            return Parsed::Wrong;
        },
        Parsed::Short => {
            return Parsed::Short;
        },
    };
    let b = match read_spaced_tag(s, a, Tag::Open) {
        Parsed::Done(_, b) => b,
        Parsed::Wrong => {
            return Parsed::Wrong;
        },
        Parsed::Short => {
            return Parsed::Short;
        },
    };
    let j = match read_run(s, b, Class::Space, false) {
        Parsed::Done(_, j) => j,
        Parsed::Wrong => {
            return Parsed::Wrong;
        },
        Parsed::Short => {
            return Parsed::Short;
        },
    };
    let c = match read_run(s, j, Class::Letter, true) {
        Parsed::Done(_, c) => c,
        Parsed::Wrong => {
            return Parsed::Wrong;
        },
        Parsed::Short => {
            return Parsed::Short;
        },
    };
    let pred = text_of(s, j, c);
    let (args, d) = match read_tokens(s, c) {
        Parsed::Done(args, d) => (args, d),
        Parsed::Wrong => {
            return Parsed::Wrong;
        },
        Parsed::Short => {
            return Parsed::Short;
        },
    };
    if args.len() == 0 {
        return Parsed::Wrong;
    }
    let e = match read_spaced_tag(s, d, Tag::Close) {
        Parsed::Done(_, e) => e,
        Parsed::Wrong => {
            return Parsed::Wrong;
        },
        Parsed::Short => {
            return Parsed::Short;
        },
    };
    match read_closing(s, e) {
        Parsed::Done(_, f) => Parsed::Done(ParsedFact::new(pred, args), f),
        Parsed::Wrong => Parsed::Wrong,
        Parsed::Short => Parsed::Short,
    }
}

/// Reads a rule at the beginning of `input`.
pub fn rule(input: &[u8]) -> (r: Parsed<ParsedRule>)
    ensures
        rule_scan(r) == rule_at(input@, 0),
{
    read_rule(input, 0)
}

/// Reads a rule at `i`.
fn read_rule(s: &[u8], i: usize) -> (r: Parsed<ParsedRule>)
    requires
        i <= s@.len(),
    ensures
        rule_scan(r) == rule_at(s@, i as int),
        r matches Parsed::Done(_, e) ==> i < e <= s@.len(),
{
    let a = match read_spaced_tag(s, i, Tag::Rule) {
        Parsed::Done(_, a) => a,
        Parsed::Wrong => {
            return Parsed::Wrong;
        },
        Parsed::Short => {
            return Parsed::Short;
        },
    };
    let b = match read_spaced_tag(s, a, Tag::Open) {
        Parsed::Done(_, b) => b,
        Parsed::Wrong => {
            return Parsed::Wrong;
        },
        Parsed::Short => {
            return Parsed::Short;
        },
    };
    let (lhs, c) = match read_parts(s, b) {
        Parsed::Done(lhs, c) => (lhs, c),
        Parsed::Wrong => {
            return Parsed::Wrong;
        },
        Parsed::Short => {
            return Parsed::Short;
        },
    };
    if lhs.len() == 0 {
        return Parsed::Wrong;
    }
    let d = match read_spaced_tag(s, c, Tag::Close) {
        Parsed::Done(_, d) => d,
        Parsed::Wrong => {
            return Parsed::Wrong;
        },
        Parsed::Short => {
            return Parsed::Short;
        },
    };
    let e = match read_spaced_tag(s, d, Tag::Arrow) {
        Parsed::Done(_, e) => e,
        Parsed::Wrong => {
            return Parsed::Wrong;
        },
        Parsed::Short => {
            return Parsed::Short;
        },
    };
    let (rhs, f) = match read_part(s, e) {
        Parsed::Done(rhs, f) => (rhs, f),
        Parsed::Wrong => {
            return Parsed::Wrong;
        },
        Parsed::Short => {
            return Parsed::Short;
        },
    };
    match read_closing(s, f) {
        Parsed::Done(_, g) => Parsed::Done(ParsedRule::new(lhs, rhs), g),
        Parsed::Wrong => Parsed::Wrong,
        Parsed::Short => Parsed::Short,
    }
}

/// The facts of a list, as they are spelled.
pub open spec fn fact_texts(v: Seq<ParsedFact>) -> Seq<FactText> {
    Seq::new(v.len(), |i: int| v[i]@)
}

/// The rules of a list, as they are spelled.
pub open spec fn rule_texts(v: Seq<ParsedRule>) -> Seq<RuleText> {
    Seq::new(v.len(), |i: int| v[i]@)
}

/// Reads facts from `i` on, as many as stand there.
fn read_facts(s: &[u8], i: usize) -> (r: Parsed<Vec<ParsedFact>>)
    requires
        i <= s@.len(),
    ensures
        match r {
            Parsed::Done(list, e) => i <= e <= s@.len() && facts_from(s@, i as int) == Scan::Done(
                fact_texts(list@),
                e as int,
            ),
            Parsed::Wrong => facts_from(s@, i as int) is Wrong,
            Parsed::Short => facts_from(s@, i as int) is Short,
        },
{
    let mut list: Vec<ParsedFact> = Vec::new();
    let mut at: usize = i;
    assert(fact_texts(list@) + Seq::<FactText>::empty() =~= Seq::<FactText>::empty());
    loop
        invariant
            i <= at <= s@.len(),
            facts_from(s@, i as int) == so_far_and(fact_texts(list@), facts_from(s@, at as int)),
        decreases s@.len() - at,
    {
        match read_fact(s, at) {
            Parsed::Done(f, e) => {
                proof {
                    let rest = facts_from(s@, e as int);
                    let before = fact_texts(list@);
                    assert(so_far_and(before, and_more(f@, rest)) == so_far_and(
                        before.push(f@),
                        rest,
                    )) by {
                        match rest {
                            Scan::Done(others, k) => {
                                assert(before + (seq![f@] + others) =~= before.push(f@) + others);
                            },
                            _ => {},
                        }
                    }
                }
                let ghost before = fact_texts(list@);
                let ghost added = f@;
                list.push(f);
                assert(fact_texts(list@) =~= before.push(added));
                at = e;
            },
            Parsed::Wrong => {
                assert(fact_texts(list@) + Seq::<FactText>::empty() =~= fact_texts(list@));
                return Parsed::Done(list, at);
            },
            Parsed::Short => {
                return Parsed::Short;
            },
        }
    }
}

/// Reads rules from `i` on, as many as stand there.
fn read_rules(s: &[u8], i: usize) -> (r: Parsed<Vec<ParsedRule>>)
    requires
        i <= s@.len(),
    ensures
        match r {
            Parsed::Done(list, e) => i <= e <= s@.len() && rules_from(s@, i as int) == Scan::Done(
                rule_texts(list@),
                e as int,
            ),
            Parsed::Wrong => rules_from(s@, i as int) is Wrong,
            Parsed::Short => rules_from(s@, i as int) is Short,
        },
{
    let mut list: Vec<ParsedRule> = Vec::new();
    let mut at: usize = i;
    assert(rule_texts(list@) + Seq::<RuleText>::empty() =~= Seq::<RuleText>::empty());
    loop
        invariant
            i <= at <= s@.len(),
            rules_from(s@, i as int) == so_far_and(rule_texts(list@), rules_from(s@, at as int)),
        decreases s@.len() - at,
    {
        match read_rule(s, at) {
            Parsed::Done(ru, e) => {
                proof {
                    let rest = rules_from(s@, e as int);
                    let before = rule_texts(list@);
                    assert(so_far_and(before, and_more(ru@, rest)) == so_far_and(
                        before.push(ru@),
                        rest,
                    )) by {
                        match rest {
                            Scan::Done(others, k) => {
                                assert(before + (seq![ru@] + others) =~= before.push(ru@) + others);
                            },
                            _ => {},
                        }
                    }
                }
                let ghost before = rule_texts(list@);
                let ghost added = ru@;
                list.push(ru);
                assert(rule_texts(list@) =~= before.push(added));
                at = e;
            },
            Parsed::Wrong => {
                assert(rule_texts(list@) + Seq::<RuleText>::empty() =~= rule_texts(list@));
                return Parsed::Done(list, at);
            },
            Parsed::Short => {
                return Parsed::Short;
            },
        }
    }
}

/// Reads a knowledge base at the beginning of `input`.
pub fn kb(input: &[u8]) -> (r: Parsed<ParsedKnowledgeBase>)
    ensures
        kb_scan(r) == kb_at(input@, 0),
{
    let s = input;
    let a = match read_spaced_tag(s, 0, Tag::Kb) {
        Parsed::Done(_, a) => a,
        Parsed::Wrong => {
            return Parsed::Wrong;
        },
        Parsed::Short => {
            return Parsed::Short;
        },
    };
    let b = match read_spaced_tag(s, a, Tag::Brace) {
        Parsed::Done(_, b) => b,
        Parsed::Wrong => {
            return Parsed::Wrong;
        },
        Parsed::Short => {
            return Parsed::Short;
        },
    };
    let (facts, c) = match read_facts(s, b) {
        Parsed::Done(facts, c) => (facts, c),
        Parsed::Wrong => {
            return Parsed::Wrong;
        },
        Parsed::Short => {
            return Parsed::Short;
        },
    };
    if facts.len() == 0 {
        return Parsed::Wrong;
    }
    let (rules, d) = match read_rules(s, c) {
        Parsed::Done(rules, d) => (rules, d),
        Parsed::Wrong => {
            return Parsed::Wrong;
        },
        Parsed::Short => {
            return Parsed::Short;
        },
    };
    if rules.len() == 0 {
        return Parsed::Wrong;
    }
    match read_closing(s, d) {
        Parsed::Done(_, e) => {
            let pkb = ParsedKnowledgeBase::new(facts, rules);
            assert(pkb@.facts =~= fact_texts(facts@));
            assert(pkb@.rules =~= rule_texts(rules@));
            Parsed::Done(pkb, e)
        },
        Parsed::Wrong => Parsed::Wrong,
        Parsed::Short => Parsed::Short,
    }
}

/// The fact that `f` begins with, or a failure where it begins with none.
pub fn parse_fact(f: &[u8]) -> (r: Result<ParsedFact, KbError>)
    ensures
        match r {
            Ok(pf) => fact_at(f@, 0) matches Scan::Done(text, _) && pf@ == text,
            Err(e) => e == KbError::ParseFailure && !(fact_at(f@, 0) is Done),
        },
{
    match fact(f) {
        Parsed::Done(pf, _) => Ok(pf),
        Parsed::Wrong => Err(KbError::ParseFailure),
        Parsed::Short => Err(KbError::ParseFailure),
    }
}

/// The rule that `r` begins with, or a failure where it begins with none.
pub fn parse_rule(r: &[u8]) -> (parsed: Result<ParsedRule, KbError>)
    ensures
        match parsed {
            Ok(pr) => rule_at(r@, 0) matches Scan::Done(text, _) && pr@ == text,
            Err(e) => e == KbError::ParseFailure && !(rule_at(r@, 0) is Done),
        },
{
    match rule(r) {
        Parsed::Done(pr, _) => Ok(pr),
        Parsed::Wrong => Err(KbError::ParseFailure),
        Parsed::Short => Err(KbError::ParseFailure),
    }
}

/// The knowledge base that `bytes` begin with, or a failure where they begin
/// with none.
pub fn parse_kb(bytes: &[u8]) -> (parsed: Result<ParsedKnowledgeBase, KbError>)
    ensures
        match parsed {
            Ok(pkb) => kb_at(bytes@, 0) matches Scan::Done(text, _) && pkb@ == text,
            Err(e) => e == KbError::ParseFailure && !(kb_at(bytes@, 0) is Done),
        },
{
    match kb(bytes) {
        Parsed::Done(pkb, _) => Ok(pkb),
        Parsed::Wrong => Err(KbError::ParseFailure),
        Parsed::Short => Err(KbError::ParseFailure),
    }
}

} // verus!
