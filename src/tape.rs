use std::collections::VecDeque;
use vstd::prelude::*;

verus! {

/// How the head moves after a cell has been written.
#[derive(Clone, Copy, PartialEq, Eq, Debug, Structural)]
pub enum Direction {
    Left,
    InPlace,
    Right,
}

/// The value of a tape cell.
#[derive(Clone, PartialEq, Eq, Debug, Hash)]
pub enum Symbol {
    Blank,
    NonBlank(String),
}

/// What a `Symbol` denotes: blank, or a non-blank token by its text.
pub enum SymbolView {
    Blank,
    NonBlank(Seq<char>),
}

impl View for Symbol {
    type V = SymbolView;

    open spec fn view(&self) -> SymbolView {
        match self {
            Symbol::Blank => SymbolView::Blank,
            Symbol::NonBlank(s) => SymbolView::NonBlank(s@),
        }
    }
}

impl Symbol {
    /// A copy of this symbol.
    pub fn duplicate(&self) -> (r: Symbol)
        ensures
            r@ == self@,
    {
        match self {
            Symbol::Blank => Symbol::Blank,
            Symbol::NonBlank(s) => Symbol::NonBlank(s.clone()),
        }
    }

    /// Whether two symbols denote the same cell value.
    pub fn same_as(&self, other: &Symbol) -> (r: bool)
        ensures
            r == (self@ == other@),
    {
        match (self, other) {
            (Symbol::Blank, Symbol::Blank) => true,
            (Symbol::NonBlank(a), Symbol::NonBlank(b)) => a.eq(b),
            _ => false,
        }
    }
}

/// The materialized window of a tape and the index of the head in it.
pub struct TapeView {
    pub cells: Seq<SymbolView>,
    pub head: int,
}

impl TapeView {
    /// The head lies on a materialized cell.
    pub open spec fn wf(self) -> bool {
        0 <= self.head < self.cells.len()
    }

    /// The symbol under the head.
    pub open spec fn current(self) -> SymbolView {
        self.cells[self.head]
    }

    /// The window after the cell under the head is overwritten.
    pub open spec fn written(self, s: SymbolView) -> TapeView {
        TapeView { cells: self.cells.update(self.head, s), head: self.head }
    }

    /// The window after one move of the head. Moving past either edge first
    /// materializes one blank cell there; nothing is ever removed.
    pub open spec fn moved(self, d: Direction) -> TapeView {
        match d {
            Direction::InPlace => self,
            Direction::Left => if self.head == 0 {
                TapeView { cells: seq![SymbolView::Blank] + self.cells, head: 0 }
            } else {
                TapeView { cells: self.cells, head: self.head - 1 }
            },
            Direction::Right => if self.head + 1 == self.cells.len() {
                TapeView { cells: self.cells.push(SymbolView::Blank), head: self.head + 1 }
            } else {
                TapeView { cells: self.cells, head: self.head + 1 }
            },
        }
    }

    /// The window after `n` moves in direction `d`.
    pub open spec fn moved_n(self, d: Direction, n: nat) -> TapeView
        decreases n,
    {
        if n == 0 {
            self
        } else {
            self.moved_n(d, (n - 1) as nat).moved(d)
        }
    }
}

/// `n` blank cells.
pub open spec fn blanks(n: nat) -> Seq<SymbolView> {
    Seq::new(n, |i: int| SymbolView::Blank)
}

/// Staying in place moves neither the head nor the window's edges.
pub proof fn lemma_stay_keeps_tape(t: TapeView)
    requires
        t.wf(),
    ensures
        t.moved(Direction::InPlace) == t,
        t.moved(Direction::InPlace).head == t.head,
        t.moved(Direction::InPlace).cells.len() == t.cells.len(),
{
}

/// From an interior cell, a move left then right, or right then left, brings
/// the head back to where it was and leaves every cell as it was.
pub proof fn lemma_back_and_forth(t: TapeView)
    requires
        t.wf(),
        0 < t.head,
        t.head + 1 < t.cells.len(),
    ensures
        t.moved(Direction::Left).moved(Direction::Right) == t,
        t.moved(Direction::Right).moved(Direction::Left) == t,
{
}

/// Moving left `n` times never fails: once the head has passed the left edge,
/// each move exposes one new blank cell, and the head rests on it.
pub proof fn lemma_repeated_left(t: TapeView, n: nat)
    requires
        t.wf(),
    ensures
        t.moved_n(Direction::Left, n).wf(),
        n <= t.head ==> t.moved_n(Direction::Left, n) == (TapeView {
            cells: t.cells,
            head: t.head - n,
        }),
        n > t.head ==> t.moved_n(Direction::Left, n) == (TapeView {
            cells: blanks((n - t.head) as nat) + t.cells,
            head: 0,
        }),
        n > t.head ==> t.moved_n(Direction::Left, n).current() == SymbolView::Blank,
    decreases n,
{
    if n > 0 {
        lemma_repeated_left(t, (n - 1) as nat);
        if n > t.head {
            let k = (n - t.head) as nat;
            if n - 1 > t.head {
                assert(seq![SymbolView::Blank] + (blanks((k - 1) as nat) + t.cells) =~= blanks(k)
                    + t.cells);
            } else {
                assert(seq![SymbolView::Blank] + t.cells =~= blanks(k) + t.cells);
            }
        }
    }
}

/// Moving right `n` times never fails: once the head has passed the right
/// edge, each move exposes one new blank cell, and the head rests on it.
pub proof fn lemma_repeated_right(t: TapeView, n: nat)
    requires
        t.wf(),
    ensures
        t.moved_n(Direction::Right, n).wf(),
        t.moved_n(Direction::Right, n).head == t.head + n,
        t.head + n < t.cells.len() ==> t.moved_n(Direction::Right, n).cells == t.cells,
        t.head + n >= t.cells.len() ==> t.moved_n(Direction::Right, n).cells == t.cells + blanks(
            (t.head + n + 1 - t.cells.len()) as nat,
        ),
        t.head + n >= t.cells.len() ==> t.moved_n(Direction::Right, n).current()
            == SymbolView::Blank,
    decreases n,
{
    if n > 0 {
        lemma_repeated_right(t, (n - 1) as nat);
        let len = t.cells.len();
        if t.head + n >= len {
            let k = (t.head + n + 1 - len) as nat;
            if t.head + n - 1 >= len {
                assert((t.cells + blanks((k - 1) as nat)).push(SymbolView::Blank) =~= t.cells
                    + blanks(k));
            } else {
                assert(t.cells.push(SymbolView::Blank) =~= t.cells + blanks(k));
            }
        }
    }
}

/// A tape that is infinite in both directions: every cell outside the
/// materialized window holds `Blank`.
#[derive(Clone, Debug)]
pub struct Tape {
    tape: VecDeque<Symbol>,
    pos: usize,
}

impl View for Tape {
    type V = TapeView;

    closed spec fn view(&self) -> TapeView {
        TapeView { cells: self.tape@.map_values(|s: Symbol| s@), head: self.pos as int }
    }
}

impl Tape {
    /// The head lies on a materialized cell.
    pub open spec fn wf(&self) -> bool {
        self@.wf()
    }

    /// A tape holding `tape` with the head on its first cell; an empty
    /// content gives a single blank cell.
    pub fn new(tape: VecDeque<Symbol>) -> (r: Tape)
        ensures
            r.wf(),
            r@.head == 0,
            tape@.len() == 0 ==> r@.cells == seq![SymbolView::Blank],
            tape@.len() > 0 ==> r@.cells == tape@.map_values(|s: Symbol| s@),
    {
        let ghost given = tape@;
        let mut tape = tape;
        if tape.len() == 0 {
            tape.push_back(Symbol::Blank);
        }
        let r = Tape { tape, pos: 0 };
        proof {
            if given.len() == 0 {
                assert(r@.cells =~= seq![SymbolView::Blank]);
            }
        }
        r
    }

    /// The symbol under the head.
    pub fn get_current(&self) -> (r: Symbol)
        requires
            self.wf(),
        ensures
            r@ == self@.current(),
    {
        self.tape[self.pos].duplicate()
    }

    /// The number of materialized cells.
    pub fn len(&self) -> (r: usize)
        ensures
            r == self@.cells.len(),
    {
        self.tape.len()
    }

    /// The index of the head among the materialized cells.
    pub fn position(&self) -> (r: usize)
        ensures
            r == self@.head,
    {
        self.pos
    }

    /// The materialized cells, from left to right.
    pub fn cells(&self) -> (r: Vec<Symbol>)
        ensures
            r@.map_values(|s: Symbol| s@) == self@.cells,
    {
        let mut out: Vec<Symbol> = Vec::new();
        let mut i: usize = 0;
        while i < self.tape.len()
            invariant
                i <= self.tape@.len(),
                out@.len() == i,
                forall|j: int| 0 <= j < i ==> (#[trigger] out@[j])@ == self.tape@[j]@,
            decreases self.tape@.len() - i,
        {
            out.push(self.tape[i].duplicate());
            i = i + 1;
        }
        assert(out@.map_values(|s: Symbol| s@) =~= self@.cells);
        out
    }

    /// Moves the head one cell, growing the window by a blank cell when the
    /// head passes one of its edges.
    pub fn step(&mut self, direction: Direction)
        requires
            old(self).wf(),
        ensures
            final(self).wf(),
            final(self)@ == old(self)@.moved(direction),
    {
        match direction {
            Direction::InPlace => {},
            Direction::Left => {
                if self.pos == 0 {
                    self.tape.push_front(Symbol::Blank);
                } else {
                    self.pos = self.pos - 1;
                }
            },
            Direction::Right => {
                let len = self.tape.len();
                self.pos = self.pos + 1;
                if self.pos == len {
                    self.tape.push_back(Symbol::Blank);
                }
            },
        }
        proof {
            let o = old(self)@;
            if direction == Direction::Left && o.head == 0 {
                assert(self@.cells =~= seq![SymbolView::Blank] + o.cells);
            } else if direction == Direction::Right && o.head + 1 == o.cells.len() {
                assert(self@.cells =~= o.cells.push(SymbolView::Blank));
            }
        }
    }

    /// Replaces the symbol under the head.
    pub fn put(&mut self, symbol: Symbol)
        requires
            old(self).wf(),
        ensures
            final(self).wf(),
            final(self)@ == old(self)@.written(symbol@),
    {
        let ghost s = symbol@;
        let _ = self.tape.remove(self.pos);
        self.tape.insert(self.pos, symbol);
        proof {
            assert(self@.cells =~= old(self)@.cells.update(old(self)@.head, s));
        }
    }
}

} // verus!
