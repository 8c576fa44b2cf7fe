use crate::tape::{Direction, Symbol, SymbolView, Tape, TapeView};
use vstd::prelude::*;

verus! {

/// The control state of a machine.
#[derive(Clone, PartialEq, Eq, Debug, Hash)]
pub enum State {
    Accept,
    Reject,
    Intermediate(IntermediateStateName),
}

/// The name of an intermediate state.
pub type IntermediateStateName = String;

/// What a `State` denotes: one of the two halting states, or an intermediate
/// state by its name.
pub enum StateView {
    Accept,
    Reject,
    Intermediate(Seq<char>),
}

impl View for State {
    type V = StateView;

    open spec fn view(&self) -> StateView {
        match self {
            State::Accept => StateView::Accept,
            State::Reject => StateView::Reject,
            State::Intermediate(s) => StateView::Intermediate(s@),
        }
    }
}

impl State {
    /// A copy of this state.
    pub fn duplicate(&self) -> (r: State)
        ensures
            r@ == self@,
    {
        match self {
            State::Accept => State::Accept,
            State::Reject => State::Reject,
            State::Intermediate(s) => State::Intermediate(s.clone()),
        }
    }
}

/// The left-hand side of a rule: an intermediate state and the symbol read.
pub type RuleLHS = (IntermediateStateName, Symbol);

/// The right-hand side of a rule: the next state, the symbol written and the
/// move of the head.
pub type RuleRHS = (State, Symbol, Direction);

/// A rule's left-hand side as values.
pub type RuleKey = (Seq<char>, SymbolView);

/// A rule's right-hand side as values.
pub type RuleAction = (StateView, SymbolView, Direction);

pub open spec fn key_of(e: (RuleLHS, RuleRHS)) -> RuleKey {
    (e.0.0@, e.0.1@)
}

pub open spec fn action_of(e: (RuleLHS, RuleRHS)) -> RuleAction {
    (e.1.0@, e.1.1@, e.1.2)
}

/// The table that a sequence of entries denotes: a later entry for a key
/// replaces an earlier one.
pub open spec fn table(es: Seq<(RuleKey, RuleAction)>) -> Map<RuleKey, RuleAction>
    decreases es.len(),
{
    if es.len() == 0 {
        Map::empty()
    } else {
        table(es.drop_last()).insert(es.last().0, es.last().1)
    }
}

/// The table maps `k` to the last entry with that key, and holds no key
/// that no entry has.
pub proof fn lemma_table_lookup(es: Seq<(RuleKey, RuleAction)>, k: RuleKey, i: int)
    requires
        -1 <= i < es.len(),
        forall|j: int| i < j < es.len() ==> (#[trigger] es[j]).0 != k,
        i >= 0 ==> es[i].0 == k,
    ensures
        i >= 0 ==> table(es).contains_key(k) && table(es)[k] == es[i].1,
        i < 0 ==> !table(es).contains_key(k),
    decreases es.len(),
{
    if es.len() > 0 {
        let last = es.len() - 1;
        if i < last {
            let p = es.drop_last();
            assert forall|j: int| i < j < p.len() implies (#[trigger] p[j]).0 != k by {
                assert(p[j] == es[j]);
            }
            if i >= 0 {
                assert(p[i] == es[i]);
            }
            lemma_table_lookup(p, k, i);
            assert(es[last].0 != k);
        }
    }
}

/// A key is in the table exactly when some entry has it.
pub proof fn lemma_table_keys(es: Seq<(RuleKey, RuleAction)>, k: RuleKey)
    ensures
        table(es).contains_key(k) <==> exists|i: int| 0 <= i < es.len() && (#[trigger] es[i]).0 == k,
    decreases es.len(),
{
    if es.len() > 0 {
        let p = es.drop_last();
        let n = es.len() - 1;
        lemma_table_keys(p, k);
        if es[n].0 == k {
            assert(table(es).contains_key(k));
        } else if table(es).contains_key(k) {
            let i = choose|i: int| 0 <= i < p.len() && (#[trigger] p[i]).0 == k;
            assert(es[i] == p[i]);
        } else {
            assert forall|i: int| 0 <= i < es.len() implies (#[trigger] es[i]).0 != k by {
                if i < n {
                    assert(es[i] == p[i]);
                }
            }
        }
    }
}

/// A transition table: at most one right-hand side for each left-hand side.
#[derive(Clone, Debug)]
pub struct Rules {
    entries: Vec<(RuleLHS, RuleRHS)>,
}

impl View for Rules {
    type V = Map<RuleKey, RuleAction>;

    closed spec fn view(&self) -> Map<RuleKey, RuleAction> {
        table(self.entries())
    }
}

impl Rules {
    /// The entries of the table in the order in which they were set.
    pub closed spec fn entries(&self) -> Seq<(RuleKey, RuleAction)> {
        self.entries@.map_values(|e: (RuleLHS, RuleRHS)| (key_of(e), action_of(e)))
    }

    /// The table is what its entries denote.
    pub proof fn lemma_view_is_table(&self)
        ensures
            self@ == table(self.entries()),
    {
    }

    /// The number of entries.
    pub fn len(&self) -> (r: usize)
        ensures
            r == self.entries().len(),
    {
        self.entries.len()
    }

    /// The entry at index `i`.
    pub fn entry(&self, i: usize) -> (r: &(RuleLHS, RuleRHS))
        requires
            i < self.entries().len(),
        ensures
            (key_of(*r), action_of(*r)) == self.entries()[i as int],
    {
        &self.entries[i]
    }

    /// An empty table.
    pub fn new() -> (r: Rules)
        ensures
            r@ == Map::<RuleKey, RuleAction>::empty(),
            r.entries() == Seq::<(RuleKey, RuleAction)>::empty(),
    {
        let r = Rules { entries: Vec::new() };
        assert(r.entries() =~= Seq::<(RuleKey, RuleAction)>::empty());
        r
    }

    /// The right-hand side for `(state, symbol)`, if the table has one.
    pub fn get(&self, state: &IntermediateStateName, symbol: &Symbol) -> (r: Option<RuleRHS>)
        ensures
            r is None <==> !self@.contains_key((state@, symbol@)),
            r matches Some(rhs) ==> (rhs.0@, rhs.1@, rhs.2) == self@[(state@, symbol@)],
    {
        let ghost k = (state@, symbol@);
        let mut i: usize = self.entries.len();
        while i > 0
            invariant
                i <= self.entries@.len(),
                k == (state@, symbol@),
                forall|j: int| i <= j < self.entries@.len() ==> (#[trigger] self.entries()[j]).0 != k,
            decreases i,
        {
            let e = &self.entries[i - 1];
            let same_state = e.0.0.eq(state);
            let same_symbol = e.0.1.same_as(symbol);
            if same_state && same_symbol {
                proof {
                    lemma_table_lookup(self.entries(), k, i - 1);
                }
                return Some((e.1.0.duplicate(), e.1.1.duplicate(), e.1.2));
            }
            i = i - 1;
        }
        proof {
            lemma_table_lookup(self.entries(), k, -1);
        }
        None
    }

    /// Whether the table has a rule for `(state, symbol)`.
    pub fn contains(&self, state: &IntermediateStateName, symbol: &Symbol) -> (r: bool)
        ensures
            r == self@.contains_key((state@, symbol@)),
    {
        self.get(state, symbol).is_some()
    }

    /// Sets the rule for the left-hand side of `lhs`, replacing any earlier one.
    pub fn insert(&mut self, lhs: RuleLHS, rhs: RuleRHS)
        ensures
            final(self)@ == old(self)@.insert((lhs.0@, lhs.1@), (rhs.0@, rhs.1@, rhs.2)),
            final(self).entries() == old(self).entries().push(
                ((lhs.0@, lhs.1@), (rhs.0@, rhs.1@, rhs.2)),
            ),
    {
        let ghost e = ((lhs.0@, lhs.1@), (rhs.0@, rhs.1@, rhs.2));
        self.entries.push((lhs, rhs));
        proof {
            assert(self.entries() =~= old(self).entries().push(e));
            assert(self.entries().drop_last() =~= old(self).entries());
        }
    }
}

/// How a machine stands after a step.
#[derive(Clone, Copy, PartialEq, Eq, Debug, Structural)]
pub enum Outcome {
    InProgress,
    Accept,
    RejectByRule,
    RejectByNoRule,
}

/// The result of a run.
#[derive(Clone, Copy, PartialEq, Eq, Debug, Structural)]
pub enum Verdict {
    Accept,
    RejectByRule,
    RejectByNoRule,
    TimeLimitExceeded,
}

/// How a machine in state `s` stands: only an intermediate state is still in
/// progress. A machine that stands in the reject state without a failed
/// lookup was sent there by the program.
pub open spec fn classify(s: StateView) -> Outcome {
    match s {
        StateView::Accept => Outcome::Accept,
        StateView::Reject => Outcome::RejectByRule,
        StateView::Intermediate(_) => Outcome::InProgress,
    }
}

/// One step from `state` on `tape`: the tape, state and outcome after it.
pub open spec fn next(rules: Map<RuleKey, RuleAction>, tape: TapeView, state: StateView) -> (
    TapeView,
    StateView,
    Outcome,
) {
    match state {
        StateView::Intermediate(name) => {
            let k = (name, tape.current());
            if rules.contains_key(k) {
                let a = rules[k];
                (tape.written(a.1).moved(a.2), a.0, classify(a.0))
            } else {
                (tape, StateView::Reject, Outcome::RejectByNoRule)
            }
        },
        _ => (tape, state, classify(state)),
    }
}

/// The verdict that ends a run whose last outcome was `o`, if `o` ends it.
pub open spec fn verdict_of(o: Outcome) -> Verdict {
    match o {
        Outcome::Accept => Verdict::Accept,
        Outcome::RejectByRule => Verdict::RejectByRule,
        Outcome::RejectByNoRule => Verdict::RejectByNoRule,
        Outcome::InProgress => Verdict::TimeLimitExceeded,
    }
}

/// A run of at most `budget` further steps from a machine whose last outcome
/// was `last`: the final tape, the final state, the verdict and the number of
/// steps performed.
pub open spec fn run_from(
    rules: Map<RuleKey, RuleAction>,
    tape: TapeView,
    state: StateView,
    last: Outcome,
    budget: nat,
) -> (TapeView, StateView, Verdict, nat)
    decreases budget,
{
    if last != Outcome::InProgress || budget == 0 {
        (tape, state, verdict_of(last), 0)
    } else {
        let (t, s, o) = next(rules, tape, state);
        let r = run_from(rules, t, s, o, (budget - 1) as nat);
        (r.0, r.1, r.2, (r.3 + 1) as nat)
    }
}

/// Looking up a state and symbol that have no rule rejects, and leaves the
/// tape as it was.
pub proof fn lemma_no_rule_rejects(
    rules: Map<RuleKey, RuleAction>,
    tape: TapeView,
    name: Seq<char>,
)
    requires
        tape.wf(),
        !rules.contains_key((name, tape.current())),
    ensures
        next(rules, tape, StateView::Intermediate(name)) == (
            tape,
            StateView::Reject,
            Outcome::RejectByNoRule,
        ),
        next(rules, tape, StateView::Intermediate(name)).0.current() == tape.current(),
{
}

/// A rule that leads to the reject state rejects by rule, after writing and
/// moving as the rule says.
pub proof fn lemma_rule_to_reject(rules: Map<RuleKey, RuleAction>, tape: TapeView, name: Seq<char>)
    requires
        tape.wf(),
        rules.contains_key((name, tape.current())),
        rules[(name, tape.current())].0 == StateView::Reject,
    ensures
        ({
            let a = rules[(name, tape.current())];
            next(rules, tape, StateView::Intermediate(name)) == (
                tape.written(a.1).moved(a.2),
                StateView::Reject,
                Outcome::RejectByRule,
            )
        }),
{
}

/// A machine: a tape, a transition table and the current state.
#[derive(Clone, Debug)]
pub struct TuringMachine {
    pub tape: Tape,
    pub rules: Rules,
    pub state: State,
}

impl TuringMachine {
    /// How the machine stands in its current state.
    pub fn outcome(&self) -> (r: Outcome)
        ensures
            r == classify(self.state@),
    {
        match &self.state {
            State::Accept => Outcome::Accept,
            State::Reject => Outcome::RejectByRule,
            State::Intermediate(_) => Outcome::InProgress,
        }
    }

    /// Performs one step from an intermediate state: applies the rule for the
    /// current state and symbol, or moves to the reject state, leaving the
    /// tape alone, when there is none.
    pub fn step(&mut self) -> (r: Outcome)
        requires
            old(self).state is Intermediate,
            old(self).tape.wf(),
        ensures
            final(self).tape.wf(),
            final(self).rules == old(self).rules,
            (final(self).tape@, final(self).state@, r) == next(
                old(self).rules@,
                old(self).tape@,
                old(self).state@,
            ),
    {
        let name = match &self.state {
            State::Intermediate(n) => n.clone(),
            _ => { return Outcome::InProgress; },
        };
        let current = self.tape.get_current();
        match self.rules.get(&name, &current) {
            Some((state, symbol, direction)) => {
                self.tape.put(symbol);
                self.tape.step(direction);
                self.state = state;
                self.outcome()
            },
            None => {
                self.state = State::Reject;
                Outcome::RejectByNoRule
            },
        }
    }

    /// Runs the machine until it halts or `limit` steps have been performed,
    /// and reports the verdict with the number of steps performed. A machine
    /// still in progress after `limit` steps exceeds the time limit; with a
    /// limit of zero no step is performed. To run without a bound, call this
    /// again for as long as the verdict is `TimeLimitExceeded`.
    pub fn run(&mut self, limit: u64) -> (r: (Verdict, u64))
        requires
            old(self).tape.wf(),
        ensures
            final(self).tape.wf(),
            final(self).rules == old(self).rules,
            ({
                let s = run_from(
                    old(self).rules@,
                    old(self).tape@,
                    old(self).state@,
                    classify(old(self).state@),
                    limit as nat,
                );
                final(self).tape@ == s.0 && final(self).state@ == s.1 && r.0 == s.2 && r.1 == s.3
            }),
    {
        let ghost whole = run_from(
            self.rules@,
            self.tape@,
            self.state@,
            classify(self.state@),
            limit as nat,
        );
        let mut outcome = self.outcome();
        let mut steps: u64 = 0;
        while outcome == Outcome::InProgress && steps < limit
            invariant
                steps <= limit,
                self.tape.wf(),
                self.rules == old(self).rules,
                outcome == Outcome::InProgress ==> self.state is Intermediate,
                ({
                    let s = run_from(
                        self.rules@,
                        self.tape@,
                        self.state@,
                        outcome,
                        (limit - steps) as nat,
                    );
                    whole == (s.0, s.1, s.2, (s.3 + steps) as nat)
                }),
            decreases limit - steps,
        {
            outcome = self.step();
            steps = steps + 1;
        }
        let verdict = match outcome {
            Outcome::Accept => Verdict::Accept,
            Outcome::RejectByRule => Verdict::RejectByRule,
            Outcome::RejectByNoRule => Verdict::RejectByNoRule,
            Outcome::InProgress => Verdict::TimeLimitExceeded,
        };
        (verdict, steps)
    }
}

} // verus!
