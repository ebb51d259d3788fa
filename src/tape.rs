use vstd::prelude::*;

verus! {

/// A single memory cell holding one byte. Incrementing and decrementing wrap
/// around modulo 256.
#[derive(Clone, Copy, Debug, PartialEq, Eq, Structural)]
pub struct Cell {
    pub value: u8,
}

/// The byte that follows `v` modulo 256.
pub open spec fn wrap_inc(v: u8) -> u8 {
    ((v as int + 1) % 256) as u8
}

/// The byte that precedes `v` modulo 256.
pub open spec fn wrap_dec(v: u8) -> u8 {
    ((v as int + 255) % 256) as u8
}

impl Cell {
    pub fn new() -> (c: Self)
        ensures
            c.value == 0,
    {
        Cell { value: 0 }
    }

    pub fn increment(&mut self)
        ensures
            final(self).value == wrap_inc(old(self).value),
            old(self).value == 255 ==> final(self).value == 0,
    {
        self.value = if self.value == 255 { 0 } else { self.value + 1 };
    }

    pub fn decrement(&mut self)
        ensures
            final(self).value == wrap_dec(old(self).value),
            old(self).value == 0 ==> final(self).value == 255,
    {
        self.value = if self.value == 0 { 255 } else { self.value - 1 };
    }
}

/// The mathematical picture of a tape: the byte in each materialized cell,
/// leftmost first, and the position of the head among them.
pub ghost struct TapeView {
    pub cells: Seq<u8>,
    pub head: int,
}

impl TapeView {
    pub open spec fn wf(self) -> bool {
        0 <= self.head < self.cells.len()
    }

    pub open spec fn current(self) -> u8 {
        self.cells[self.head]
    }

    /// A tape holding one zero cell under the head.
    pub open spec fn fresh() -> TapeView {
        TapeView { cells: seq![0u8], head: 0 }
    }

    /// The head moves one cell right; a zero cell is added past the right end.
    pub open spec fn right(self) -> TapeView {
        if self.head + 1 >= self.cells.len() {
            TapeView { cells: self.cells.push(0u8), head: self.head + 1 }
        } else {
            TapeView { cells: self.cells, head: self.head + 1 }
        }
    }

    /// The head moves one cell left; at the left end a zero cell is added
    /// in front and the head stays on it.
    pub open spec fn left(self) -> TapeView {
        if self.head == 0 {
            TapeView { cells: seq![0u8] + self.cells, head: 0 }
        } else {
            TapeView { cells: self.cells, head: self.head - 1 }
        }
    }

    /// The current cell replaced by `v`.
    pub open spec fn store(self, v: u8) -> TapeView {
        TapeView { cells: self.cells.update(self.head, v), head: self.head }
    }

    /// `left` applied `n` times.
    pub open spec fn lefts(self, n: nat) -> TapeView
        decreases n,
    {
        if n == 0 {
            self
        } else {
            self.left().lefts((n - 1) as nat)
        }
    }

    /// `right` applied `n` times.
    pub open spec fn rights(self, n: nat) -> TapeView
        decreases n,
    {
        if n == 0 {
            self
        } else {
            self.right().rights((n - 1) as nat)
        }
    }
}

/// `n` zero bytes.
pub open spec fn zeros(n: nat) -> Seq<u8> {
    Seq::new(n, |i: int| 0u8)
}

/// Where `n` steps to the left from a well-formed tape end: on the same
/// cells when the head had room, else at the left end with the missing
/// zero cells added in front.
pub proof fn lemma_lefts(v: TapeView, n: nat)
    requires
        v.wf(),
    ensures
        v.lefts(n) == (if n <= v.head {
            TapeView { cells: v.cells, head: v.head - n }
        } else {
            TapeView { cells: zeros((n - v.head) as nat) + v.cells, head: 0 }
        }),
    decreases n,
{
    if n > 0 {
        lemma_lefts(v.left(), (n - 1) as nat);
        if v.head == 0 {
            assert(zeros((n - 1) as nat) + (seq![0u8] + v.cells) =~= zeros(n) + v.cells);
        }
    }
}

/// `n` steps to the right that stay inside the materialized cells add none.
pub proof fn lemma_rights_inside(v: TapeView, n: nat)
    requires
        v.wf(),
        v.head + n < v.cells.len(),
    ensures
        v.rights(n) == (TapeView { cells: v.cells, head: v.head + n }),
    decreases n,
{
    if n > 0 {
        lemma_rights_inside(v.right(), (n - 1) as nat);
    }
}

/// Moving the head left `n` times and then right `n` times brings it back
/// to the cell it started on, with every cell's value kept; only the zero
/// cells that the moves to the left had to add stand in front.
pub proof fn lemma_left_then_right(v: TapeView, n: nat)
    requires
        v.wf(),
    ensures
        ({
            let grown: nat = if n > v.head { (n - v.head) as nat } else { 0 };
            let w = v.lefts(n).rights(n);
            &&& w.cells == zeros(grown) + v.cells
            &&& w.head == v.head + grown
            &&& w.current() == v.current()
        }),
{
    let grown: nat = if n > v.head { (n - v.head) as nat } else { 0 };
    lemma_lefts(v, n);
    let u = v.lefts(n);
    if n <= v.head {
        assert(zeros(0) + v.cells =~= v.cells);
    }
    assert(u.cells == zeros(grown) + v.cells);
    lemma_rights_inside(u, n);
}

/// The machine's memory: cells that grow on demand at either end, and a head
/// that points at the current cell.
pub struct Tape {
    pub cells: Vec<Cell>,
    pub head: usize,
}

impl View for Tape {
    type V = TapeView;

    open spec fn view(&self) -> TapeView {
        TapeView { cells: self.cells@.map_values(|c: Cell| c.value), head: self.head as int }
    }
}

impl Tape {
    pub open spec fn wf(&self) -> bool {
        self.head < self.cells.len()
    }

    pub fn new() -> (t: Self)
        ensures
            t.wf(),
            t@ == TapeView::fresh(),
            t.cells.len() == 1,
    {
        let t = Tape { cells: vec![Cell::new()], head: 0 };
        assert(t@.cells =~= seq![0u8]);
        t
    }

    /// Move the head one cell to the right.
    pub fn right(&mut self)
        requires
            old(self).wf(),
            old(self).cells.len() < usize::MAX,
        ensures
            final(self).wf(),
            final(self)@ == old(self)@.right(),
            final(self).cells.len() <= old(self).cells.len() + 1,
    {
        self.head += 1;
        if self.head >= self.cells.len() {
            self.cells.push(Cell::new());
        }
        assert(self@.cells =~= old(self)@.right().cells);
    }

    /// Move the head one cell to the left.
    pub fn left(&mut self)
        requires
            old(self).wf(),
            old(self).cells.len() < usize::MAX,
        ensures
            final(self).wf(),
            final(self)@ == old(self)@.left(),
            final(self).cells.len() <= old(self).cells.len() + 1,
    {
        if self.head == 0 {
            self.cells.insert(0, Cell::new());
        } else {
            self.head -= 1;
        }
        assert(self@.cells =~= old(self)@.left().cells);
    }

    /// Increment the current cell's value.
    pub fn increment(&mut self)
        requires
            old(self).wf(),
        ensures
            final(self).wf(),
            final(self)@ == old(self)@.store(wrap_inc(old(self)@.current())),
            final(self).cells.len() == old(self).cells.len(),
    {
        let mut c = self.cells[self.head];
        c.increment();
        self.cells.set(self.head, c);
        assert(self@.cells =~= old(self)@.store(wrap_inc(old(self)@.current())).cells);
    }

    /// Decrement the current cell's value.
    pub fn decrement(&mut self)
        requires
            old(self).wf(),
        ensures
            final(self).wf(),
            final(self)@ == old(self)@.store(wrap_dec(old(self)@.current())),
            final(self).cells.len() == old(self).cells.len(),
    {
        let mut c = self.cells[self.head];
        c.decrement();
        self.cells.set(self.head, c);
        assert(self@.cells =~= old(self)@.store(wrap_dec(old(self)@.current())).cells);
    }

    /// The byte that the current cell holds, to be written out.
    pub fn output(&self) -> (r: u8)
        requires
            self.wf(),
        ensures
            r == self@.current(),
    {
        self.cells[self.head].value
    }

    /// Replace the current cell's value with a byte that was read in.
    pub fn input(&mut self, byte: u8)
        requires
            old(self).wf(),
        ensures
            final(self).wf(),
            final(self)@ == old(self)@.store(byte),
            final(self).cells.len() == old(self).cells.len(),
    {
        self.cells.set(self.head, Cell { value: byte });
        assert(self@.cells =~= old(self)@.store(byte).cells);
    }

    pub fn current_cell_is_zero(&self) -> (r: bool)
        requires
            self.wf(),
        ensures
            r == (self@.current() == 0),
    {
        self.cells[self.head].value == 0
    }

    /// The cell under the head.
    pub fn current_cell(&self) -> (r: &Cell)
        requires
            self.wf(),
        ensures
            r.value == self@.current(),
    {
        &self.cells[self.head]
    }
}

} // verus!
