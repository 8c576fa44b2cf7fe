use turing_machine::parse;
use turing_machine::{
    Direction, Header, HeaderKey, ParseError, ParseErrorKind, RawRule, State, Symbol,
};

const HEADER: &str = "start: s0\naccept: yes\nreject: no\nblank: _\n";

fn s(x: &str) -> String {
    x.to_string()
}

fn hdr() -> Header {
    Header { start: s("s0"), accept: s("yes"), reject: s("no"), blank: s("_") }
}

fn fault(text: &str) -> ParseError {
    match parse::file(text) {
        Ok(_) => panic!("program was accepted"),
        Err(e) => e,
    }
}

#[test]
fn symbol() {
    assert_eq!(parse::symbol(&s("symbol"), &s("_")), Symbol::NonBlank(s("symbol")));
    assert_eq!(parse::symbol(&s("_"), &s("_")), Symbol::Blank);
    assert_eq!(parse::symbol(&s("B"), &s("B")), Symbol::Blank);
}

#[test]
fn state() {
    let h = hdr();
    assert_eq!(parse::state(&s("state"), &h), State::Intermediate(s("state")));
    assert_eq!(parse::state(&s("yes"), &h), State::Accept);
    assert_eq!(parse::state(&s("no"), &h), State::Reject);
}

#[test]
fn direction() {
    assert_eq!(parse::direction(&s("<")), Some(Direction::Left));
    assert_eq!(parse::direction(&s("^")), Some(Direction::InPlace));
    assert_eq!(parse::direction(&s(">")), Some(Direction::Right));
    assert_eq!(parse::direction(&s("<>")), None);
    assert_eq!(parse::direction(&s(".")), None);
}

#[test]
fn header_entry_with_name() {
    assert_eq!(parse::header_entry_with_name("header", "header: symbol"), Some(s("symbol")));
    assert_eq!(parse::header_entry_with_name("header", "header:\t wow"), Some(s("wow")));
    assert_eq!(parse::header_entry_with_name("header", "header: wow "), None);
    assert_eq!(parse::header_entry_with_name("header", "headers: symbol"), None);
    assert_eq!(parse::header_entry_with_name("header", "header : symbol"), None);
    assert_eq!(parse::header_entry_with_name("header", "header :symbol"), None);
    assert_eq!(parse::header_entry_with_name("header", "header: a b"), None);
}

#[test]
fn rule() {
    let expected = RawRule {
        state: s("state1"),
        symbol: s("symbol1"),
        next: s("state2"),
        write: s("symbol2"),
        direction: Direction::InPlace,
    };
    assert_eq!(parse::rule("state1 symbol1 -> state2 symbol2 ^"), Ok(expected.clone()));
    assert_eq!(
        parse::rule("state1   \t  symbol1   \t  ->  \t  state2 \t   symbol2    ^"),
        Ok(expected)
    );
    assert_eq!(
        parse::rule("state1   \t  symbol1   \t  ->  \t  state2 \t   symbol2    ^ \t\r\n"),
        Err(ParseErrorKind::RuleSpacing)
    );
    assert_eq!(parse::rule("state1 symbol1 - > state2 symbol2 ^"), Err(ParseErrorKind::RuleTooLong));
    assert_eq!(parse::rule(" state1 symbol1 -> state2 symbol2 ^"), Err(ParseErrorKind::RuleSpacing));
    assert_eq!(parse::rule("state1 symbol 1 -> state2 symbol2 ^"), Err(ParseErrorKind::RuleTooLong));
    assert_eq!(parse::rule("state1 symbol1 -> st ate2 symbol2 ^"), Err(ParseErrorKind::RuleTooLong));
    assert_eq!(
        parse::rule("state1 symbol1 -> state2 symbol2 ."),
        Err(ParseErrorKind::RuleDirection(s(".")))
    );
    assert_eq!(parse::rule("state1 symbol1 -> state2 symbol2"), Err(ParseErrorKind::RuleTooShort));
    assert_eq!(parse::rule("state1 symbol1 => state2 symbol2 >"), Err(ParseErrorKind::RuleArrow));
}

#[test]
fn header_reads_four_entries() {
    assert_eq!(parse::header(HEADER), Ok(hdr()));
    assert_eq!(parse::header("start: a\r\naccept: b\r\nreject: c\r\nblank: d"), Ok(Header {
        start: s("a"),
        accept: s("b"),
        reject: s("c"),
        blank: s("d"),
    }));
}

#[test]
fn header_faults_name_the_entry() {
    let e = parse::header("start: s0\nreject: no\naccept: yes\nblank: _").unwrap_err();
    assert_eq!(e, ParseError { line: 2, text: s("reject: no"), kind: ParseErrorKind::HeaderEntry(HeaderKey::Accept) });
    let e = parse::header("start: s0\naccept: yes\nreject: no").unwrap_err();
    assert_eq!(e, ParseError { line: 4, text: s(""), kind: ParseErrorKind::HeaderEntry(HeaderKey::Blank) });
    let e = parse::header("start: s0\n\naccept: yes\nreject: no\nblank: _").unwrap_err();
    assert_eq!(e.line, 2);
    let e = parse::header("start:s0\naccept: yes\nreject: no\nblank: _").unwrap_err();
    assert_eq!(e.kind, ParseErrorKind::HeaderEntry(HeaderKey::Start));
}

#[test]
fn file_reads_rules_and_canonicalizes() {
    let text = format!("{HEADER}\n\ns0 _ -> s1 x >\r\ns1 x -> yes _ <\n\ns1 _ -> no y ^\n\n");
    let (h, rules) = parse::file(&text).expect("parses");
    assert_eq!(h, hdr());
    assert_eq!(
        rules.get(&s("s0"), &Symbol::Blank),
        Some((State::Intermediate(s("s1")), Symbol::NonBlank(s("x")), Direction::Right))
    );
    assert_eq!(
        rules.get(&s("s1"), &Symbol::NonBlank(s("x"))),
        Some((State::Accept, Symbol::Blank, Direction::Left))
    );
    assert_eq!(
        rules.get(&s("s1"), &Symbol::Blank),
        Some((State::Reject, Symbol::NonBlank(s("y")), Direction::InPlace))
    );
    assert_eq!(rules.get(&s("s0"), &Symbol::NonBlank(s("x"))), None);
}

#[test]
fn parser_gives_start_state() {
    let (_, start) = parse::parser(HEADER).expect("parses");
    assert_eq!(start, State::Intermediate(s("s0")));
    let (_, start) = parse::parser("start: no\naccept: yes\nreject: no\nblank: _").expect("parses");
    assert_eq!(start, State::Reject);
}

#[test]
fn same_accept_and_reject_rejected() {
    let e = fault("start: s0\naccept: x\nreject: x\nblank: _\ns0 _ -> x _ >\n");
    assert_eq!(e, ParseError { line: 3, text: s("reject: x"), kind: ParseErrorKind::SameAcceptReject });
}

#[test]
fn identical_duplicate_rejected() {
    let e = fault(&format!("{HEADER}s0 _ -> yes _ >\ns0 _ -> yes _ >\n"));
    assert_eq!(e.line, 6);
    assert_eq!(
        e.kind,
        ParseErrorKind::DuplicateRule(State::Accept, Symbol::Blank, Direction::Right)
    );
}

#[test]
fn conflicting_duplicate_rejected() {
    let e = fault(&format!("{HEADER}s0 a -> yes _ >\n\ns0 a -> no b <\n"));
    assert_eq!(e.line, 7);
    assert_eq!(e.text, s("s0 a -> no b <"));
    assert_eq!(
        e.kind,
        ParseErrorKind::DuplicateRule(State::Accept, Symbol::Blank, Direction::Right)
    );
}

#[test]
fn rule_from_halting_state_rejected() {
    let e = fault(&format!("{HEADER}yes _ -> s0 _ >\n"));
    assert_eq!(e.line, 5);
    assert_eq!(e.kind, ParseErrorKind::RuleFromHaltingState);
}

#[test]
fn trailing_garbage_rejected() {
    let e = fault(&format!("{HEADER}s0 _ -> yes _ >\n\ngarbage"));
    assert_eq!(e.line, 7);
    assert_eq!(e.kind, ParseErrorKind::RuleTooShort);
    let e = fault(&format!("{HEADER}s0 _ -> yes _ > \n"));
    assert_eq!(e.kind, ParseErrorKind::RuleSpacing);
    let e = fault(&format!("{HEADER}s0 _ -> yes _ >\n\r"));
    assert_eq!(e.kind, ParseErrorKind::RuleSpacing);
}

#[test]
fn bad_direction_glyph_reported() {
    let e = fault(&format!("{HEADER}s0 _ -> yes _ v\n"));
    assert_eq!(e.kind, ParseErrorKind::RuleDirection(s("v")));
    assert_eq!(e.text, s("s0 _ -> yes _ v"));
}

#[test]
fn canonical_text_reparses_to_same_table() {
    let text = format!("{HEADER}s0 _ -> s1 a >\ns1 a -> no _ <\n");
    let (h, rules) = parse::file(&text).expect("parses");
    let again = parse::render(&h, &rules);
    assert_eq!(again, text);
    let (h2, rules2) = parse::file(&again).expect("reparses");
    assert_eq!(h, h2);
    for (st, sy) in [("s0", Symbol::Blank), ("s1", Symbol::NonBlank(s("a"))), ("s1", Symbol::Blank)] {
        assert_eq!(rules.get(&s(st), &sy), rules2.get(&s(st), &sy));
    }
}

#[test]
fn render_uses_declared_names() {
    let text = "start: a\naccept: ok\nreject: bad\nblank: B\n\ns1   B ->  ok x <\r\n\n";
    let (h, rules) = parse::file(text).expect("parses");
    assert_eq!(
        parse::render(&h, &rules),
        "start: a\naccept: ok\nreject: bad\nblank: B\ns1 B -> ok x <\n"
    );
}

#[test]
fn initial_tape_resolves_blank() {
    let h = hdr();
    let t = parse::initial_tape("  1 _\t0 ", &h);
    assert_eq!(
        t.cells(),
        vec![Symbol::NonBlank(s("1")), Symbol::Blank, Symbol::NonBlank(s("0"))]
    );
    assert_eq!(t.position(), 0);
    let t = parse::initial_tape("", &h);
    assert_eq!(t.cells(), vec![Symbol::Blank]);
}
