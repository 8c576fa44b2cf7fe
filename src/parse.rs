use crate::lex::{
    append, chars_of, is_ident, join_words, joined_lines, lemma_joined_prefix,
    lemma_lines_joined, lemma_words_are_idents, lemma_words_joined, line_texts, lines,
    plain_spaces, push_char, spaced, spaced_join, split_lines, string_of, texts, well_spaced, words,
    words_of,
};
use crate::machine::{
    action_of, key_of, lemma_table_keys, table, RuleAction, RuleKey,
    RuleRHS, Rules, State, StateView,
};
use crate::tape::{Direction, Symbol, SymbolView, Tape};
use std::collections::VecDeque;
use vstd::prelude::*;

verus! {

/// The four header entries, in the order in which they must appear.
#[derive(Clone, Copy, PartialEq, Eq, Debug, Structural)]
pub enum HeaderKey {
    Start,
    Accept,
    Reject,
    Blank,
}

/// The literal that names a header entry.
pub open spec fn key_name(k: HeaderKey) -> Seq<char> {
    match k {
        HeaderKey::Start => seq!['s', 't', 'a', 'r', 't'],
        HeaderKey::Accept => seq!['a', 'c', 'c', 'e', 'p', 't'],
        HeaderKey::Reject => seq!['r', 'e', 'j', 'e', 'c', 't'],
        HeaderKey::Blank => seq!['b', 'l', 'a', 'n', 'k'],
    }
}

/// The identifiers that a program's header declares.
#[derive(Clone, PartialEq, Eq, Debug)]
pub struct Header {
    pub start: String,
    pub accept: String,
    pub reject: String,
    pub blank: String,
}

pub struct HeaderView {
    pub start: Seq<char>,
    pub accept: Seq<char>,
    pub reject: Seq<char>,
    pub blank: Seq<char>,
}

impl View for Header {
    type V = HeaderView;

    open spec fn view(&self) -> HeaderView {
        HeaderView {
            start: self.start@,
            accept: self.accept@,
            reject: self.reject@,
            blank: self.blank@,
        }
    }
}

/// A rule line's fields, before the header's identifiers are resolved.
#[derive(Clone, PartialEq, Eq, Debug)]
pub struct RawRule {
    pub state: String,
    pub symbol: String,
    pub next: String,
    pub write: String,
    pub direction: Direction,
}

pub struct RawRuleView {
    pub state: Seq<char>,
    pub symbol: Seq<char>,
    pub next: Seq<char>,
    pub write: Seq<char>,
    pub direction: Direction,
}

impl View for RawRule {
    type V = RawRuleView;

    open spec fn view(&self) -> RawRuleView {
        RawRuleView {
            state: self.state@,
            symbol: self.symbol@,
            next: self.next@,
            write: self.write@,
            direction: self.direction,
        }
    }
}

/// Why a program was rejected.
#[derive(Clone, PartialEq, Eq, Debug)]
pub enum ParseErrorKind {
    /// The line is not `<key>: <identifier>` for the expected key.
    HeaderEntry(HeaderKey),
    /// The accept and reject identifiers are the same.
    SameAcceptReject,
    /// A rule line starts or ends with white space, or holds a line break
    /// character among its fields.
    RuleSpacing,
    /// A rule line has fewer than six fields.
    RuleTooShort,
    /// A rule line has more than six fields.
    RuleTooLong,
    /// The third field of a rule line is not `->`.
    RuleArrow,
    /// The last field of a rule line is not one of `<`, `^`, `>`.
    RuleDirection(String),
    /// A rule leaves the accept or the reject state.
    RuleFromHaltingState,
    /// A rule for the same state and symbol came earlier: its right-hand side.
    DuplicateRule(State, Symbol, Direction),
}

pub enum ParseErrorKindView {
    HeaderEntry(HeaderKey),
    SameAcceptReject,
    RuleSpacing,
    RuleTooShort,
    RuleTooLong,
    RuleArrow,
    RuleDirection(Seq<char>),
    RuleFromHaltingState,
    DuplicateRule(RuleAction),
}

impl View for ParseErrorKind {
    type V = ParseErrorKindView;

    open spec fn view(&self) -> ParseErrorKindView {
        match self {
            ParseErrorKind::HeaderEntry(k) => ParseErrorKindView::HeaderEntry(*k),
            ParseErrorKind::SameAcceptReject => ParseErrorKindView::SameAcceptReject,
            ParseErrorKind::RuleSpacing => ParseErrorKindView::RuleSpacing,
            ParseErrorKind::RuleTooShort => ParseErrorKindView::RuleTooShort,
            ParseErrorKind::RuleTooLong => ParseErrorKindView::RuleTooLong,
            ParseErrorKind::RuleArrow => ParseErrorKindView::RuleArrow,
            ParseErrorKind::RuleDirection(g) => ParseErrorKindView::RuleDirection(g@),
            ParseErrorKind::RuleFromHaltingState => ParseErrorKindView::RuleFromHaltingState,
            ParseErrorKind::DuplicateRule(s, w, d) => ParseErrorKindView::DuplicateRule(
                (s@, w@, *d),
            ),
        }
    }
}

/// A rejected program: the (1-based) line at fault, its text, and why.
#[derive(Clone, PartialEq, Eq, Debug)]
pub struct ParseError {
    pub line: usize,
    pub text: String,
    pub kind: ParseErrorKind,
}

pub struct ParseErrorView {
    pub line: nat,
    pub text: Seq<char>,
    pub kind: ParseErrorKindView,
}

impl View for ParseError {
    type V = ParseErrorView;

    open spec fn view(&self) -> ParseErrorView {
        ParseErrorView { line: self.line as nat, text: self.text@, kind: self.kind@ }
    }
}

/// The direction that a one-character glyph names.
pub open spec fn glyph(w: Seq<char>) -> Option<Direction> {
    if w == seq!['<'] {
        Some(Direction::Left)
    } else if w == seq!['^'] {
        Some(Direction::InPlace)
    } else if w == seq!['>'] {
        Some(Direction::Right)
    } else {
        None
    }
}

/// The field that separates the two sides of a rule.
pub open spec fn arrow() -> Seq<char> {
    seq!['-', '>']
}

/// The symbol that an identifier denotes, given the declared blank.
pub open spec fn symbol_of(w: Seq<char>, blank: Seq<char>) -> SymbolView {
    if w == blank {
        SymbolView::Blank
    } else {
        SymbolView::NonBlank(w)
    }
}

/// The state that an identifier denotes, given the header.
pub open spec fn state_of(w: Seq<char>, h: HeaderView) -> StateView {
    if w == h.accept {
        StateView::Accept
    } else if w == h.reject {
        StateView::Reject
    } else {
        StateView::Intermediate(w)
    }
}

/// The value of a header line `<key>: <identifier>`, if `line` is one.
pub open spec fn entry_value(line: Seq<char>, key: Seq<char>) -> Option<Seq<char>> {
    let w = words(line);
    if well_spaced(line) && w.len() == 2 && w[0] == key.push(':') {
        Some(w[1])
    } else {
        None
    }
}

/// The fields of a rule line, or why it is not one.
pub open spec fn rule_fields(line: Seq<char>) -> Result<RawRuleView, ParseErrorKindView> {
    let w = words(line);
    if !well_spaced(line) {
        Err(ParseErrorKindView::RuleSpacing)
    } else if w.len() < 6 {
        Err(ParseErrorKindView::RuleTooShort)
    } else if w.len() > 6 {
        Err(ParseErrorKindView::RuleTooLong)
    } else if w[2] != arrow() {
        Err(ParseErrorKindView::RuleArrow)
    } else {
        match glyph(w[5]) {
            None => Err(ParseErrorKindView::RuleDirection(w[5])),
            Some(d) => Ok(
                RawRuleView { state: w[0], symbol: w[1], next: w[3], write: w[4], direction: d },
            ),
        }
    }
}

/// The value of the header entry on line `k` (0-based) of `ls`.
pub open spec fn entry_at(ls: Seq<Seq<char>>, k: int, key: HeaderKey) -> Result<
    Seq<char>,
    ParseErrorView,
> {
    let text = if k < ls.len() {
        ls[k]
    } else {
        Seq::empty()
    };
    let fail = ParseErrorView {
        line: (k + 1) as nat,
        text,
        kind: ParseErrorKindView::HeaderEntry(key),
    };
    if k < ls.len() {
        match entry_value(ls[k], key_name(key)) {
            Some(v) => Ok(v),
            None => Err(fail),
        }
    } else {
        Err(fail)
    }
}

/// The header that the first four lines declare, or the first of them at fault.
pub open spec fn header_of(ls: Seq<Seq<char>>) -> Result<HeaderView, ParseErrorView> {
    match entry_at(ls, 0, HeaderKey::Start) {
        Err(e) => Err(e),
        Ok(start) => match entry_at(ls, 1, HeaderKey::Accept) {
            Err(e) => Err(e),
            Ok(accept) => match entry_at(ls, 2, HeaderKey::Reject) {
                Err(e) => Err(e),
                Ok(reject) => match entry_at(ls, 3, HeaderKey::Blank) {
                    Err(e) => Err(e),
                    Ok(blank) => Ok(HeaderView { start, accept, reject, blank }),
                },
            },
        },
    }
}

/// The table after line number `n` (1-based), with text `line`, is read into `m`.
pub open spec fn add_line(
    m: Map<RuleKey, RuleAction>,
    line: Seq<char>,
    n: nat,
    h: HeaderView,
) -> Result<Map<RuleKey, RuleAction>, ParseErrorView> {
    if line.len() == 0 {
        Ok(m)
    } else {
        match rule_fields(line) {
            Err(kind) => Err(ParseErrorView { line: n, text: line, kind }),
            Ok(r) => {
                let key = (r.state, symbol_of(r.symbol, h.blank));
                if r.state == h.accept || r.state == h.reject {
                    Err(
                        ParseErrorView {
                            line: n,
                            text: line,
                            kind: ParseErrorKindView::RuleFromHaltingState,
                        },
                    )
                } else if m.contains_key(key) {
                    Err(
                        ParseErrorView {
                            line: n,
                            text: line,
                            kind: ParseErrorKindView::DuplicateRule(m[key]),
                        },
                    )
                } else {
                    Ok(
                        m.insert(
                            key,
                            (state_of(r.next, h), symbol_of(r.write, h.blank), r.direction),
                        ),
                    )
                }
            },
        }
    }
}

/// The table that the rule lines among the first `n` lines of `ls` give, or
/// the first of them at fault.
pub open spec fn body_of(ls: Seq<Seq<char>>, h: HeaderView, n: int) -> Result<
    Map<RuleKey, RuleAction>,
    ParseErrorView,
>
    decreases n,
{
    if n <= 4 {
        Ok(Map::empty())
    } else {
        match body_of(ls, h, n - 1) {
            Err(e) => Err(e),
            Ok(m) => add_line(m, ls[n - 1], n as nat, h),
        }
    }
}

/// What a program text denotes: its header and its rule table, or the first
/// fault in it.
pub open spec fn program_of(text: Seq<char>) -> Result<
    (HeaderView, Map<RuleKey, RuleAction>),
    ParseErrorView,
> {
    let ls = lines(text);
    match header_of(ls) {
        Err(e) => Err(e),
        Ok(h) => if h.accept == h.reject {
            Err(
                ParseErrorView {
                    line: 3,
                    text: ls[2],
                    kind: ParseErrorKindView::SameAcceptReject,
                },
            )
        } else {
            match body_of(ls, h, ls.len() as int) {
                Err(e) => Err(e),
                Ok(m) => Ok((h, m)),
            }
        },
    }
}

/// Once a line is at fault, the lines after it change nothing.
proof fn lemma_fault_stays(ls: Seq<Seq<char>>, h: HeaderView, i: int, n: int)
    requires
        body_of(ls, h, i) is Err,
        i <= n,
    ensures
        body_of(ls, h, n) == body_of(ls, h, i),
    decreases n - i,
{
    if i < n {
        lemma_fault_stays(ls, h, i, n - 1);
    }
}

/// The identifier that stands for `s` under header `h`.
pub open spec fn symbol_name(s: SymbolView, h: HeaderView) -> Seq<char> {
    match s {
        SymbolView::Blank => h.blank,
        SymbolView::NonBlank(t) => t,
    }
}

/// The identifier that stands for `s` under header `h`.
pub open spec fn state_name(s: StateView, h: HeaderView) -> Seq<char> {
    match s {
        StateView::Accept => h.accept,
        StateView::Reject => h.reject,
        StateView::Intermediate(n) => n,
    }
}

/// The glyph of a direction.
pub open spec fn glyph_text(d: Direction) -> Seq<char> {
    match d {
        Direction::Left => seq!['<'],
        Direction::InPlace => seq!['^'],
        Direction::Right => seq!['>'],
    }
}

/// The header line `<key>: <value>` in canonical form.
pub open spec fn header_line(key: HeaderKey, v: Seq<char>) -> Seq<char> {
    spaced_join(seq![key_name(key).push(':'), v])
}

/// The four header lines of `h` in canonical form.
pub open spec fn header_lines(h: HeaderView) -> Seq<Seq<char>> {
    seq![
        header_line(HeaderKey::Start, h.start),
        header_line(HeaderKey::Accept, h.accept),
        header_line(HeaderKey::Reject, h.reject),
        header_line(HeaderKey::Blank, h.blank),
    ]
}

/// The rule line for entry `e` in canonical form.
pub open spec fn rule_line(e: (RuleKey, RuleAction), h: HeaderView) -> Seq<char> {
    spaced_join(
        seq![
            e.0.0,
            symbol_name(e.0.1, h),
            arrow(),
            state_name(e.1.0, h),
            symbol_name(e.1.1, h),
            glyph_text(e.1.2),
        ],
    )
}

/// The canonical text of a program: the header lines, then one line for each
/// entry, each line followed by a line feed.
pub open spec fn rendered(h: HeaderView, es: Seq<(RuleKey, RuleAction)>) -> Seq<char> {
    joined_lines(header_lines(h) + es.map_values(|e: (RuleKey, RuleAction)| rule_line(e, h)))
}

/// The header declares identifiers, and accept and reject differ.
pub open spec fn valid_header(h: HeaderView) -> bool {
    &&& is_ident(h.start)
    &&& is_ident(h.accept)
    &&& is_ident(h.reject)
    &&& is_ident(h.blank)
    &&& h.accept != h.reject
}

/// `s` is a symbol that program text under `h` can denote.
pub open spec fn symbol_ok(s: SymbolView, h: HeaderView) -> bool {
    match s {
        SymbolView::Blank => true,
        SymbolView::NonBlank(t) => is_ident(t) && t != h.blank,
    }
}

/// `s` is a state that program text under `h` can denote.
pub open spec fn state_ok(s: StateView, h: HeaderView) -> bool {
    match s {
        StateView::Intermediate(n) => is_ident(n) && n != h.accept && n != h.reject,
        _ => true,
    }
}

/// `e` is a rule that program text under `h` can state.
pub open spec fn entry_ok(e: (RuleKey, RuleAction), h: HeaderView) -> bool {
    &&& is_ident(e.0.0)
    &&& e.0.0 != h.accept
    &&& e.0.0 != h.reject
    &&& symbol_ok(e.0.1, h)
    &&& state_ok(e.1.0, h)
    &&& symbol_ok(e.1.1, h)
}

/// Entries that a program under `h` can state, no two for the same key.
pub open spec fn canonical(es: Seq<(RuleKey, RuleAction)>, h: HeaderView) -> bool {
    &&& forall|i: int| 0 <= i < es.len() ==> entry_ok(#[trigger] es[i], h)
    &&& forall|i: int, j: int| 0 <= i < j < es.len() ==> (#[trigger] es[i]).0 != (#[trigger] es[j]).0
}

proof fn lemma_key_word(key: HeaderKey)
    ensures
        is_ident(key_name(key).push(':')),
{
    let w = key_name(key).push(':');
    assert forall|i: int| 0 <= i < w.len() implies !crate::lex::is_space(#[trigger] w[i]) by {
        assert(w[i] == ':' || w[i] == 'a' || w[i] == 'b' || w[i] == 'c' || w[i] == 'e' || w[i]
            == 'j' || w[i] == 'k' || w[i] == 'l' || w[i] == 'n' || w[i] == 'p' || w[i] == 'r'
            || w[i] == 's' || w[i] == 't');
    }
}

proof fn lemma_header_line(key: HeaderKey, v: Seq<char>)
    requires
        is_ident(v),
    ensures
        entry_value(header_line(key, v), key_name(key)) == Some(v),
        plain_spaces(header_line(key, v)),
{
    lemma_key_word(key);
    let ws = seq![key_name(key).push(':'), v];
    lemma_words_joined(ws);
}

proof fn lemma_glyph(d: Direction)
    ensures
        is_ident(glyph_text(d)),
        glyph(glyph_text(d)) == Some(d),
{
    let g = glyph_text(d);
    assert(g.len() == 1);
    assert(!crate::lex::is_space(g[0]));
}

proof fn lemma_rule_line(e: (RuleKey, RuleAction), h: HeaderView)
    requires
        valid_header(h),
        entry_ok(e, h),
    ensures
        rule_fields(rule_line(e, h)) == Ok::<RawRuleView, ParseErrorKindView>(
            RawRuleView {
                state: e.0.0,
                symbol: symbol_name(e.0.1, h),
                next: state_name(e.1.0, h),
                write: symbol_name(e.1.1, h),
                direction: e.1.2,
            },
        ),
        plain_spaces(rule_line(e, h)),
        rule_line(e, h).len() > 0,
        symbol_of(symbol_name(e.0.1, h), h.blank) == e.0.1,
        symbol_of(symbol_name(e.1.1, h), h.blank) == e.1.1,
        state_of(state_name(e.1.0, h), h) == e.1.0,
{
    lemma_glyph(e.1.2);
    assert(is_ident(arrow())) by {
        assert(!crate::lex::is_space(arrow()[0]));
        assert(!crate::lex::is_space(arrow()[1]));
    }
    let ws = seq![
        e.0.0,
        symbol_name(e.0.1, h),
        arrow(),
        state_name(e.1.0, h),
        symbol_name(e.1.1, h),
        glyph_text(e.1.2),
    ];
    assert forall|k: int| 0 <= k < ws.len() implies is_ident(#[trigger] ws[k]) by {
        if k == 0 {
        } else if k == 1 {
        } else if k == 2 {
        } else if k == 3 {
        } else if k == 4 {
        } else {
        }
    }
    lemma_words_joined(ws);
}

proof fn lemma_body_rendered(h: HeaderView, es: Seq<(RuleKey, RuleAction)>, j: int)
    requires
        valid_header(h),
        canonical(es, h),
        0 <= j <= es.len(),
    ensures
        body_of(
            (header_lines(h) + es.map_values(|e: (RuleKey, RuleAction)| rule_line(e, h))).push(
                Seq::empty(),
            ),
            h,
            4 + j,
        ) == Ok::<Map<RuleKey, RuleAction>, ParseErrorView>(table(es.subrange(0, j))),
    decreases j,
{
    let ls = (header_lines(h) + es.map_values(|e: (RuleKey, RuleAction)| rule_line(e, h))).push(
        Seq::empty(),
    );
    if j == 0 {
        assert(es.subrange(0, 0) =~= Seq::<(RuleKey, RuleAction)>::empty());
    } else {
        lemma_body_rendered(h, es, j - 1);
        let e = es[j - 1];
        assert(entry_ok(e, h));
        assert(ls[4 + j - 1] == rule_line(e, h));
        lemma_rule_line(e, h);
        let before = es.subrange(0, j - 1);
        lemma_table_keys(before, e.0);
        assert forall|i: int| 0 <= i < before.len() implies (#[trigger] before[i]).0 != e.0 by {
            assert(before[i] == es[i]);
        }
        assert(es.subrange(0, j).drop_last() =~= before);
    }
}

/// Reading back the canonical text of a header and of entries that a
/// program can state gives that header and the table of those entries.
pub proof fn lemma_round_trip(h: HeaderView, es: Seq<(RuleKey, RuleAction)>)
    requires
        valid_header(h),
        canonical(es, h),
    ensures
        program_of(rendered(h, es)) == Ok::<
            (HeaderView, Map<RuleKey, RuleAction>),
            ParseErrorView,
        >((h, table(es))),
{
    let rl = es.map_values(|e: (RuleKey, RuleAction)| rule_line(e, h));
    let ls = header_lines(h) + rl;
    lemma_header_line(HeaderKey::Start, h.start);
    lemma_header_line(HeaderKey::Accept, h.accept);
    lemma_header_line(HeaderKey::Reject, h.reject);
    lemma_header_line(HeaderKey::Blank, h.blank);
    assert forall|k: int| 0 <= k < ls.len() implies plain_spaces(#[trigger] ls[k]) by {
        if k >= 4 {
            assert(ls[k] == rule_line(es[k - 4], h));
            lemma_rule_line(es[k - 4], h);
        }
    }
    lemma_lines_joined(ls);
    let all = ls.push(Seq::empty());
    assert(lines(rendered(h, es)) == all);
    assert(header_of(all) == Ok::<HeaderView, ParseErrorView>(h));
    lemma_body_rendered(h, es, es.len() as int);
    assert(es.subrange(0, es.len() as int) =~= es);
    assert(all.len() == 4 + es.len() + 1);
}

/// The key that a well-formed rule line defines under header `h`.
pub open spec fn line_key(line: Seq<char>, h: HeaderView) -> RuleKey {
    let r = rule_fields(line)->Ok_0;
    (r.state, symbol_of(r.symbol, h.blank))
}

/// Once a rule line has been read without fault, its key stays in the table.
proof fn lemma_key_kept(ls: Seq<Seq<char>>, h: HeaderView, i: int, n: int)
    requires
        4 <= i < n <= ls.len(),
        rule_fields(ls[i]) is Ok,
        body_of(ls, h, n) is Ok,
    ensures
        body_of(ls, h, n)->Ok_0.contains_key(line_key(ls[i], h)),
    decreases n,
{
    if i < n - 1 {
        lemma_key_kept(ls, h, i, n - 1);
    }
}

/// A program with two rule lines for the same state and symbol is rejected,
/// whether the two lines agree or not.
pub proof fn lemma_duplicate_rejected(text: Seq<char>, i: int, j: int)
    requires
        4 <= i < j < lines(text).len(),
        rule_fields(lines(text)[i]) is Ok,
        rule_fields(lines(text)[j]) is Ok,
        header_of(lines(text)) is Ok,
        line_key(lines(text)[i], header_of(lines(text))->Ok_0) == line_key(
            lines(text)[j],
            header_of(lines(text))->Ok_0,
        ),
    ensures
        program_of(text) is Err,
{
    let ls = lines(text);
    let h = header_of(ls)->Ok_0;
    if h.accept != h.reject {
        if body_of(ls, h, j) is Ok {
            lemma_key_kept(ls, h, i, j);
            assert(rule_fields(ls[j]) matches Ok(_) ==> ls[j].len() > 0);
            assert(body_of(ls, h, j + 1) is Err);
            lemma_fault_stays(ls, h, j + 1, ls.len() as int);
        } else {
            lemma_fault_stays(ls, h, j, ls.len() as int);
        }
    }
}

/// The direction that the glyph `word` names, if it names one.
pub fn direction(word: &String) -> (r: Option<Direction>)
    ensures
        r == glyph(word@),
{
    let cs = chars_of(word.as_str());
    if cs.len() != 1 {
        return None;
    }
    let c = cs[0];
    if c == '<' {
        assert(word@ =~= seq!['<']);
        Some(Direction::Left)
    } else if c == '^' {
        assert(word@ =~= seq!['^']);
        Some(Direction::InPlace)
    } else if c == '>' {
        assert(word@ =~= seq!['>']);
        Some(Direction::Right)
    } else {
        None
    }
}

/// The symbol that `word` denotes when `blank` is the declared blank.
pub fn symbol(word: &String, blank: &String) -> (r: Symbol)
    ensures
        r@ == symbol_of(word@, blank@),
{
    if word.eq(blank) {
        Symbol::Blank
    } else {
        Symbol::NonBlank(word.clone())
    }
}

/// The state that `word` denotes under `header`.
pub fn state(word: &String, header: &Header) -> (r: State)
    ensures
        r@ == state_of(word@, header@),
{
    if word.eq(&header.accept) {
        State::Accept
    } else if word.eq(&header.reject) {
        State::Reject
    } else {
        State::Intermediate(word.clone())
    }
}

/// Whether `word` is `key` followed by a colon.
fn is_key(word: &String, key: &str) -> (r: bool)
    ensures
        r == (word@ == key@.push(':')),
{
    let w = chars_of(word.as_str());
    let k = chars_of(key);
    if w.len() == 0 || w.len() - 1 != k.len() {
        return false;
    }
    let mut i: usize = 0;
    while i < k.len()
        invariant
            w@ == word@,
            k@ == key@,
            w@.len() == k@.len() + 1,
            i <= k@.len(),
            forall|j: int| 0 <= j < i ==> w@[j] == k@[j],
        decreases k@.len() - i,
    {
        if w[i] != k[i] {
            assert(w@[i as int] != k@.push(':')[i as int]);
            return false;
        }
        i = i + 1;
    }
    if w[i] != ':' {
        assert(w@[i as int] != k@.push(':')[i as int]);
        return false;
    }
    assert(w@ =~= k@.push(':'));
    true
}

/// The value of the header line `line` for the entry named `name`.
fn entry_in(line: &Vec<char>, name: &str) -> (r: Option<String>)
    ensures
        r is None <==> entry_value(line@, name@) is None,
        r matches Some(v) ==> entry_value(line@, name@) == Some(v@),
{
    let ws = words_of(line);
    if !spaced(line) || ws.len() != 2 {
        return None;
    }
    assert(texts(ws@)[0] == ws@[0]@ && texts(ws@)[1] == ws@[1]@);
    if is_key(&ws[0], name) {
        Some(ws[1].clone())
    } else {
        None
    }
}

/// The value of the header line `line` for the entry named `name`: the line
/// must be the name, a colon, white space and one identifier.
pub fn header_entry_with_name(name: &str, line: &str) -> (r: Option<String>)
    ensures
        r is None <==> entry_value(line@, name@) is None,
        r matches Some(v) ==> entry_value(line@, name@) == Some(v@),
{
    let cs = chars_of(line);
    entry_in(&cs, name)
}

/// The fields of the rule line `line`, or why it is not one.
fn rule_in(line: &Vec<char>) -> (r: Result<RawRule, ParseErrorKind>)
    ensures
        match r {
            Ok(v) => rule_fields(line@) == Ok::<RawRuleView, ParseErrorKindView>(v@),
            Err(k) => rule_fields(line@) == Err::<RawRuleView, ParseErrorKindView>(k@),
        },
{
    if !spaced(line) {
        return Err(ParseErrorKind::RuleSpacing);
    }
    let ws = words_of(line);
    if ws.len() < 6 {
        return Err(ParseErrorKind::RuleTooShort);
    }
    if ws.len() > 6 {
        return Err(ParseErrorKind::RuleTooLong);
    }
    assert(forall|j: int| 0 <= j < 6 ==> texts(ws@)[j] == (#[trigger] ws@[j])@);
    let arrow_text = chars_of("->");
    let arrow_word = string_of(&arrow_text);
    proof {
        reveal_strlit("->");
        assert(arrow_word@ =~= arrow());
    }
    if !ws[2].eq(&arrow_word) {
        return Err(ParseErrorKind::RuleArrow);
    }
    match direction(&ws[5]) {
        None => Err(ParseErrorKind::RuleDirection(ws[5].clone())),
        Some(d) => Ok(
            RawRule {
                state: ws[0].clone(),
                symbol: ws[1].clone(),
                next: ws[3].clone(),
                write: ws[4].clone(),
                direction: d,
            },
        ),
    }
}

/// The fields of the rule line `line`: a state, a symbol, `->`, a state, a
/// symbol and a direction glyph, apart by white space; or why it is not one.
pub fn rule(line: &str) -> (r: Result<RawRule, ParseErrorKind>)
    ensures
        match r {
            Ok(v) => rule_fields(line@) == Ok::<RawRuleView, ParseErrorKindView>(v@),
            Err(k) => rule_fields(line@) == Err::<RawRuleView, ParseErrorKindView>(k@),
        },
{
    let cs = chars_of(line);
    rule_in(&cs)
}

/// The value of the header entry on line `k` (0-based) of `ls`.
fn entry_on(ls: &Vec<Vec<char>>, k: usize, name: &str, key: HeaderKey) -> (r: Result<
    String,
    ParseError,
>)
    requires
        k < 4,
        name@ == key_name(key),
    ensures
        match r {
            Ok(v) => entry_at(line_texts(ls@), k as int, key) == Ok::<
                Seq<char>,
                ParseErrorView,
            >(v@),
            Err(e) => entry_at(line_texts(ls@), k as int, key) == Err::<
                Seq<char>,
                ParseErrorView,
            >(e@),
        },
{
    if k >= ls.len() {
        return Err(ParseError { line: k + 1, text: String::new(), kind: ParseErrorKind::HeaderEntry(key) });
    }
    assert(line_texts(ls@)[k as int] == ls@[k as int]@);
    match entry_in(&ls[k], name) {
        Some(v) => Ok(v),
        None => Err(
            ParseError {
                line: k + 1,
                text: string_of(&ls[k]),
                kind: ParseErrorKind::HeaderEntry(key),
            },
        ),
    }
}

/// The header that the first four of the lines `ls` declare.
fn header_in(ls: &Vec<Vec<char>>) -> (r: Result<Header, ParseError>)
    ensures
        match r {
            Ok(h) => header_of(line_texts(ls@)) == Ok::<HeaderView, ParseErrorView>(h@),
            Err(e) => header_of(line_texts(ls@)) == Err::<HeaderView, ParseErrorView>(e@),
        },
{
    proof {
        reveal_strlit("start");
        reveal_strlit("accept");
        reveal_strlit("reject");
        reveal_strlit("blank");
        assert("start"@ =~= key_name(HeaderKey::Start));
        assert("accept"@ =~= key_name(HeaderKey::Accept));
        assert("reject"@ =~= key_name(HeaderKey::Reject));
        assert("blank"@ =~= key_name(HeaderKey::Blank));
    }
    let start = match entry_on(ls, 0, "start", HeaderKey::Start) {
        Ok(v) => v,
        Err(e) => { return Err(e); },
    };
    let accept = match entry_on(ls, 1, "accept", HeaderKey::Accept) {
        Ok(v) => v,
        Err(e) => { return Err(e); },
    };
    let reject = match entry_on(ls, 2, "reject", HeaderKey::Reject) {
        Ok(v) => v,
        Err(e) => { return Err(e); },
    };
    let blank = match entry_on(ls, 3, "blank", HeaderKey::Blank) {
        Ok(v) => v,
        Err(e) => { return Err(e); },
    };
    Ok(Header { start, accept, reject, blank })
}

/// The header that the first four lines of `input` declare.
pub fn header(input: &str) -> (r: Result<Header, ParseError>)
    ensures
        match r {
            Ok(h) => header_of(lines(input@)) == Ok::<HeaderView, ParseErrorView>(h@),
            Err(e) => header_of(lines(input@)) == Err::<HeaderView, ParseErrorView>(e@),
        },
{
    let cs = chars_of(input);
    let ls = split_lines(&cs);
    header_in(&ls)
}

/// Reads a program: four header lines, then rule lines, with empty lines
/// allowed between and after the rules. Returns the header and the rule
/// table, or the first line at fault.
pub fn file(input: &str) -> (r: Result<(Header, Rules), ParseError>)
    ensures
        match r {
            Ok((h, rules)) => program_of(input@) == Ok::<
                (HeaderView, Map<RuleKey, RuleAction>),
                ParseErrorView,
            >((h@, rules@)) && valid_header(h@) && canonical(rules.entries(), h@),
            Err(e) => program_of(input@) == Err::<
                (HeaderView, Map<RuleKey, RuleAction>),
                ParseErrorView,
            >(e@),
        },
{
    let cs = chars_of(input);
    let ls = split_lines(&cs);
    let ghost lt = line_texts(ls@);
    assert(cs@ == input@);
    let h = match header_in(&ls) {
        Ok(h) => h,
        Err(e) => { return Err(e); },
    };
    assert(ls@.len() >= 4);
    assert(lt[2] == ls@[2]@);
    proof {
        lemma_words_are_idents(lt[0]);
        lemma_words_are_idents(lt[1]);
        lemma_words_are_idents(lt[2]);
        lemma_words_are_idents(lt[3]);
    }
    if h.accept.eq(&h.reject) {
        return Err(
            ParseError { line: 3, text: string_of(&ls[2]), kind: ParseErrorKind::SameAcceptReject },
        );
    }
    let mut rules = Rules::new();
    let mut i: usize = 4;
    while i < ls.len()
        invariant
            4 <= i <= ls@.len(),
            lt == line_texts(ls@),
            lt == lines(input@),
            header_of(lt) == Ok::<HeaderView, ParseErrorView>(h@),
            h.accept@ != h.reject@,
            valid_header(h@),
            canonical(rules.entries(), h@),
            body_of(lt, h@, i as int) == Ok::<Map<RuleKey, RuleAction>, ParseErrorView>(rules@),
        decreases ls@.len() - i,
    {
        let line = &ls[i];
        assert(lt[i as int] == line@);
        if line.len() > 0 {
            let fault = match rule_in(line) {
                Err(kind) => Some(kind),
                Ok(r) => {
                    if r.state.eq(&h.accept) || r.state.eq(&h.reject) {
                        Some(ParseErrorKind::RuleFromHaltingState)
                    } else {
                        let sym = symbol(&r.symbol, &h.blank);
                        match rules.get(&r.state, &sym) {
                            Some((s, w, d)) => Some(ParseErrorKind::DuplicateRule(s, w, d)),
                            None => {
                                let target = state(&r.next, &h);
                                let write = symbol(&r.write, &h.blank);
                                let ghost before = rules.entries();
                                let ghost e = ((r.state@, sym@), (target@, write@, r.direction));
                                proof {
                                    lemma_words_are_idents(line@);
                                    assert(words(line@)[0] == r.state@);
                                    assert(words(line@)[1] == r.symbol@);
                                    assert(words(line@)[3] == r.next@);
                                    assert(words(line@)[4] == r.write@);
                                    rules.lemma_view_is_table();
                                    lemma_table_keys(before, e.0);
                                    assert(entry_ok(e, h@));
                                }
                                rules.insert((r.state, sym), (target, write, r.direction));
                                proof {
                                    let after = rules.entries();
                                    assert(after == before.push(e));
                                    assert forall|a: int| 0 <= a < after.len() implies entry_ok(
                                        #[trigger] after[a],
                                        h@,
                                    ) by {
                                        if a < before.len() {
                                            assert(after[a] == before[a]);
                                        }
                                    }
                                    assert forall|a: int, b: int|
                                        0 <= a < b < after.len() implies (#[trigger] after[a]).0
                                        != (#[trigger] after[b]).0 by {
                                        assert(after[a] == before[a]);
                                        if b < before.len() {
                                            assert(after[b] == before[b]);
                                        }
                                    }
                                }
                                None
                            },
                        }
                    }
                },
            };
            if let Some(kind) = fault {
                let e = ParseError { line: i + 1, text: string_of(line), kind };
                proof {
                    assert(body_of(lt, h@, i + 1) == Err::<Map<RuleKey, RuleAction>, ParseErrorView>(e@));
                    lemma_fault_stays(lt, h@, i + 1, ls@.len() as int);
                }
                return Err(e);
            }
        }
        i = i + 1;
    }
    Ok((h, rules))
}

/// A tape holding the symbols that the identifiers of `line` denote, apart by
/// white space, with the head on the first; a line without identifiers gives
/// a single blank cell.
pub fn initial_tape(line: &str, header: &Header) -> (r: Tape)
    ensures
        r.wf(),
        r@.head == 0,
        words(line@).len() == 0 ==> r@.cells == seq![SymbolView::Blank],
        words(line@).len() > 0 ==> r@.cells == words(line@).map_values(
            |w: Seq<char>| symbol_of(w, header.blank@),
        ),
{
    let cs = chars_of(line);
    let ws = words_of(&cs);
    let mut cells: VecDeque<Symbol> = VecDeque::new();
    let mut i: usize = 0;
    while i < ws.len()
        invariant
            i <= ws@.len(),
            texts(ws@) == words(line@),
            cells@.len() == i,
            forall|j: int| 0 <= j < i ==> (#[trigger] cells@[j])@ == symbol_of(
                words(line@)[j],
                header.blank@,
            ),
        decreases ws@.len() - i,
    {
        cells.push_back(symbol(&ws[i], &header.blank));
        i = i + 1;
    }
    let r = Tape::new(cells);
    assert(cells@.map_values(|s: Symbol| s@) =~= words(line@).map_values(
        |w: Seq<char>| symbol_of(w, header.blank@),
    ));
    r
}

/// The identifier that stands for `s` under `h`.
fn symbol_text(s: &Symbol, h: &Header) -> (r: String)
    ensures
        r@ == symbol_name(s@, h@),
{
    match s {
        Symbol::Blank => h.blank.clone(),
        Symbol::NonBlank(t) => t.clone(),
    }
}

/// The identifier that stands for `s` under `h`.
fn state_text(s: &State, h: &Header) -> (r: String)
    ensures
        r@ == state_name(s@, h@),
{
    match s {
        State::Accept => h.accept.clone(),
        State::Reject => h.reject.clone(),
        State::Intermediate(n) => n.clone(),
    }
}

/// The glyph of `d`.
fn glyph_string(d: Direction) -> (r: String)
    ensures
        r@ == glyph_text(d),
{
    let mut g = String::new();
    let c = match d {
        Direction::Left => '<',
        Direction::InPlace => '^',
        Direction::Right => '>',
    };
    push_char(&mut g, c);
    assert(g@ =~= glyph_text(d));
    g
}

/// The first field of the header line for `key`.
fn key_word(key: HeaderKey) -> (r: String)
    ensures
        r@ == key_name(key).push(':'),
{
    proof {
        reveal_strlit("start");
        reveal_strlit("accept");
        reveal_strlit("reject");
        reveal_strlit("blank");
        assert("start"@ =~= key_name(HeaderKey::Start));
        assert("accept"@ =~= key_name(HeaderKey::Accept));
        assert("reject"@ =~= key_name(HeaderKey::Reject));
        assert("blank"@ =~= key_name(HeaderKey::Blank));
    }
    let name: &str = match key {
        HeaderKey::Start => "start",
        HeaderKey::Accept => "accept",
        HeaderKey::Reject => "reject",
        HeaderKey::Blank => "blank",
    };
    let cs = chars_of(name);
    let mut w = string_of(&cs);
    push_char(&mut w, ':');
    w
}

/// The header line for `key` with value `v`, in canonical form.
fn header_text(key: HeaderKey, v: &String) -> (r: String)
    ensures
        r@ == header_line(key, v@),
{
    let mut ws: Vec<String> = Vec::new();
    ws.push(key_word(key));
    ws.push(v.clone());
    assert(texts(ws@) =~= seq![key_name(key).push(':'), v@]);
    join_words(&ws)
}

/// The rule line for `e` under `h`, in canonical form.
fn rule_text(e: &(crate::machine::RuleLHS, RuleRHS), h: &Header) -> (r: String)
    ensures
        r@ == rule_line((key_of(*e), action_of(*e)), h@),
{
    let mut arrow_word = String::new();
    push_char(&mut arrow_word, '-');
    push_char(&mut arrow_word, '>');
    assert(arrow_word@ =~= arrow());
    let mut ws: Vec<String> = Vec::new();
    ws.push(e.0.0.clone());
    ws.push(symbol_text(&e.0.1, h));
    ws.push(arrow_word);
    ws.push(state_text(&e.1.0, h));
    ws.push(symbol_text(&e.1.1, h));
    ws.push(glyph_string(e.1.2));
    assert(texts(ws@) =~= seq![
        e.0.0@,
        symbol_name(e.0.1@, h@),
        arrow(),
        state_name(e.1.0@, h@),
        symbol_name(e.1.1@, h@),
        glyph_text(e.1.2),
    ]);
    join_words(&ws)
}

/// Appends `line` and a line feed to `out`.
fn append_line(out: &mut String, line: &String)
    ensures
        final(out)@ == old(out)@ + line@ + seq!['\n'],
{
    append(out, line);
    push_char(out, '\n');
}

/// The canonical text of a program with header `h` and table `rules`: the
/// header lines, then one rule line for each entry of the table.
pub fn render(h: &Header, rules: &Rules) -> (r: String)
    ensures
        r@ == rendered(h@, rules.entries()),
{
    let ghost all = header_lines(h@) + rules.entries().map_values(
        |e: (RuleKey, RuleAction)| rule_line(e, h@),
    );
    let mut out = String::new();
    proof {
        assert(all.subrange(0, 0) =~= Seq::<Seq<char>>::empty());
        lemma_joined_prefix(all, 0);
        lemma_joined_prefix(all, 1);
        lemma_joined_prefix(all, 2);
        lemma_joined_prefix(all, 3);
    }
    append_line(&mut out, &header_text(HeaderKey::Start, &h.start));
    append_line(&mut out, &header_text(HeaderKey::Accept, &h.accept));
    append_line(&mut out, &header_text(HeaderKey::Reject, &h.reject));
    append_line(&mut out, &header_text(HeaderKey::Blank, &h.blank));
    let n = rules.len();
    let mut i: usize = 0;
    while i < n
        invariant
            n == rules.entries().len(),
            all == header_lines(h@) + rules.entries().map_values(
                |e: (RuleKey, RuleAction)| rule_line(e, h@),
            ),
            i <= n,
            out@ == joined_lines(all.subrange(0, 4 + i)),
        decreases n - i,
    {
        let e = rules.entry(i);
        let line = rule_text(e, h);
        proof {
            lemma_joined_prefix(all, 4 + i);
            assert(all[4 + i] == rule_line(rules.entries()[i as int], h@));
        }
        append_line(&mut out, &line);
        i = i + 1;
    }
    assert(all.subrange(0, 4 + i) =~= all);
    out
}

/// Reads a program and returns its rule table and its start state.
pub fn parser(input: &str) -> (r: Result<(Rules, State), ParseError>)
    ensures
        match r {
            Ok((rules, start)) => program_of(input@) matches Ok((h, m)) && m == rules@
                && start@ == state_of(h.start, h),
            Err(e) => program_of(input@) == Err::<
                (HeaderView, Map<RuleKey, RuleAction>),
                ParseErrorView,
            >(e@),
        },
{
    match file(input) {
        Ok((h, rules)) => {
            let start = state(&h.start, &h);
            Ok((rules, start))
        },
        Err(e) => Err(e),
    }
}

} // verus!
