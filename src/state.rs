use vstd::prelude::*;

verus! {

/// One resolved byte transform: what `+` or `-` does to the current cell.
/// `None` from `spec_apply` means the transform refuses the value (the
/// checked policy at the 0/255 boundary), which halts execution.
#[derive(Clone, Copy, Debug)]
pub enum ByteFn {
    WrapInc,
    WrapDec,
    CheckedInc,
    CheckedDec,
    Table([u8; 256]),
}

impl ByteFn {
    pub open spec fn spec_apply(self, b: u8) -> Option<u8> {
        match self {
            ByteFn::WrapInc => Some(((b + 1) % 256) as u8),
            ByteFn::WrapDec => Some(((b + 255) % 256) as u8),
            ByteFn::CheckedInc => if b < 255 { Some((b + 1) as u8) } else { None },
            ByteFn::CheckedDec => if b > 0 { Some((b - 1) as u8) } else { None },
            ByteFn::Table(t) => Some(t@[b as int]),
        }
    }

    pub fn apply(&self, b: u8) -> (r: Option<u8>)
        ensures
            r == self.spec_apply(b),
    {
        match self {
            ByteFn::WrapInc => Some(b.wrapping_add(1)),
            ByteFn::WrapDec => Some(b.wrapping_sub(1)),
            ByteFn::CheckedInc => b.checked_add(1),
            ByteFn::CheckedDec => b.checked_sub(1),
            ByteFn::Table(t) => Some(t[b as usize]),
        }
    }
}

/// The policy for cell arithmetic at the 0/255 boundary. `Custom` carries
/// the increment and decrement transforms as full lookup tables, indexed by
/// the current cell value.
#[derive(Clone, Copy, Debug)]
pub enum OverflowStrategy {
    Default,
    Panic,
    Wrap,
    Custom(([u8; 256], [u8; 256])),
}

impl OverflowStrategy {
    pub open spec fn spec_resolve(self) -> (ByteFn, ByteFn) {
        match self {
            OverflowStrategy::Default => (ByteFn::WrapInc, ByteFn::WrapDec),
            OverflowStrategy::Panic => (ByteFn::CheckedInc, ByteFn::CheckedDec),
            OverflowStrategy::Wrap => (ByteFn::WrapInc, ByteFn::WrapDec),
            OverflowStrategy::Custom((i, d)) => (ByteFn::Table(i), ByteFn::Table(d)),
        }
    }

    fn resolve(self) -> (r: (ByteFn, ByteFn))
        ensures
            r == self.spec_resolve(),
    {
        match self {
            OverflowStrategy::Default => (ByteFn::WrapInc, ByteFn::WrapDec),
            OverflowStrategy::Panic => (ByteFn::CheckedInc, ByteFn::CheckedDec),
            OverflowStrategy::Wrap => (ByteFn::WrapInc, ByteFn::WrapDec),
            OverflowStrategy::Custom((i, d)) => (ByteFn::Table(i), ByteFn::Table(d)),
        }
    }
}

/// The abstract tape: its cells, the cursor, and the two resolved transforms.
pub struct Tape {
    pub cells: Seq<u8>,
    pub pos: int,
    pub inc: ByteFn,
    pub dec: ByteFn,
}

impl Tape {
    /// A fresh tape of `size` zeroed cells with the cursor on the first one.
    pub open spec fn fresh(size: nat, fns: (ByteFn, ByteFn)) -> Tape {
        Tape { cells: Seq::new(size, |i: int| 0u8), pos: 0, inc: fns.0, dec: fns.1 }
    }

    pub open spec fn in_bounds(self) -> bool {
        0 <= self.pos < self.cells.len()
    }

    pub open spec fn cell(self) -> u8 {
        self.cells[self.pos]
    }

    pub open spec fn with_cell(self, v: u8) -> Tape {
        Tape { cells: self.cells.update(self.pos, v), ..self }
    }

    pub open spec fn with_pos(self, p: int) -> Tape {
        Tape { pos: p, ..self }
    }
}

#[derive(Debug)]
pub struct State {
    data: Vec<u8>,
    pos: usize,
    inc: ByteFn,
    dec: ByteFn,
}

impl View for State {
    type V = Tape;

    closed spec fn view(&self) -> Tape {
        Tape { cells: self.data@, pos: self.pos as int, inc: self.inc, dec: self.dec }
    }
}

impl State {
    fn new(size: usize, fns: (ByteFn, ByteFn)) -> (r: State)
        ensures
            r@ == Tape::fresh(size as nat, fns),
    {
        let mut data: Vec<u8> = Vec::new();
        let mut i: usize = 0;
        while i < size
            invariant
                i <= size,
                data@ == Seq::new(i as nat, |j: int| 0u8),
            decreases size - i,
        {
            data.push(0);
            i += 1;
        }
        let (inc, dec) = fns;
        State { data, pos: 0, inc, dec }
    }

    pub fn builder() -> (r: StateBuilder)
        ensures
            r == StateBuilder::spec_new(),
    {
        StateBuilder::new()
    }

    /// Replaces the current cell with the increment transform's result.
    pub fn inc(&mut self)
        requires
            old(self)@.in_bounds(),
            old(self)@.inc.spec_apply(old(self)@.cell()) is Some,
        ensures
            final(self)@ == old(self)@.with_cell(old(self)@.inc.spec_apply(old(self)@.cell())->0),
    {
        let v = self.inc.apply(self.data[self.pos]);
        self.data.set(self.pos, v.unwrap());
    }

    /// Replaces the current cell with the decrement transform's result.
    pub fn dec(&mut self)
        requires
            old(self)@.in_bounds(),
            old(self)@.dec.spec_apply(old(self)@.cell()) is Some,
        ensures
            final(self)@ == old(self)@.with_cell(old(self)@.dec.spec_apply(old(self)@.cell())->0),
    {
        let v = self.dec.apply(self.data[self.pos]);
        self.data.set(self.pos, v.unwrap());
    }

    pub fn move_l(&mut self)
        requires
            old(self)@.pos > 0,
        ensures
            final(self)@ == old(self)@.with_pos(old(self)@.pos - 1),
    {
        self.pos -= 1;
    }

    pub fn move_r(&mut self)
        requires
            old(self)@.pos < usize::MAX,
        ensures
            final(self)@ == old(self)@.with_pos(old(self)@.pos + 1),
    {
        self.pos += 1;
    }

    pub fn get(&mut self) -> (r: u8)
        requires
            old(self)@.in_bounds(),
        ensures
            final(self)@ == old(self)@,
            r == old(self)@.cell(),
    {
        self.data[self.pos]
    }

    pub fn set(&mut self, t: u8)
        requires
            old(self)@.in_bounds(),
        ensures
            final(self)@ == old(self)@.with_cell(t),
    {
        self.data.set(self.pos, t);
    }

    /// Whether the cursor addresses a cell of the tape.
    pub fn in_bounds(&self) -> (r: bool)
        ensures
            r == self@.in_bounds(),
    {
        self.pos < self.data.len()
    }

    /// Whether the cursor can move one cell right.
    pub fn can_move_r(&self) -> (r: bool)
        ensures
            r == (self@.pos < usize::MAX),
    {
        self.pos < usize::MAX
    }

    /// Whether the cursor can move one cell left.
    pub fn can_move_l(&self) -> (r: bool)
        ensures
            r == (self@.pos > 0),
    {
        self.pos > 0
    }

    /// The current cell's value after the increment transform, if it allows one.
    pub fn peek_inc(&self) -> (r: Option<u8>)
        requires
            self@.in_bounds(),
        ensures
            r == self@.inc.spec_apply(self@.cell()),
    {
        self.inc.apply(self.data[self.pos])
    }

    /// The current cell's value after the decrement transform, if it allows one.
    pub fn peek_dec(&self) -> (r: Option<u8>)
        requires
            self@.in_bounds(),
        ensures
            r == self@.dec.spec_apply(self@.cell()),
    {
        self.dec.apply(self.data[self.pos])
    }

    /// The tape's cells.
    pub fn data(&self) -> (r: &[u8])
        ensures
            r@ == self@.cells,
    {
        self.data.as_slice()
    }

    /// The cursor position.
    pub fn pos(&self) -> (r: usize)
        ensures
            r as int == self@.pos,
    {
        self.pos
    }
}

/// Tape configuration: size, overflow policy, and the most times one loop
/// may run its body in a single entry before execution is stopped.
pub struct StateBuilder {
    pub overflow_strategy: OverflowStrategy,
    pub size: usize,
    pub iteration_limit: u64,
}

impl StateBuilder {
    pub open spec fn spec_new() -> StateBuilder {
        StateBuilder { overflow_strategy: OverflowStrategy::Wrap, size: 30000, iteration_limit: u64::MAX }
    }

    fn new() -> (r: StateBuilder)
        ensures
            r == StateBuilder::spec_new(),
    {
        StateBuilder { overflow_strategy: OverflowStrategy::Wrap, size: 30000, iteration_limit: u64::MAX }
    }

    pub fn size(self, size: usize) -> (r: StateBuilder)
        ensures
            r == (StateBuilder { size, ..self }),
    {
        StateBuilder { size, ..self }
    }

    pub fn overflow(self, overflow_strategy: OverflowStrategy) -> (r: StateBuilder)
        ensures
            r == (StateBuilder { overflow_strategy, ..self }),
    {
        StateBuilder { overflow_strategy, ..self }
    }

    pub fn iteration_limit(self, iteration_limit: u64) -> (r: StateBuilder)
        ensures
            r == (StateBuilder { iteration_limit, ..self }),
    {
        StateBuilder { iteration_limit, ..self }
    }

    /// The tape that this configuration builds.
    pub open spec fn spec_tape(self) -> Tape {
        Tape::fresh(self.size as nat, self.overflow_strategy.spec_resolve())
    }

    pub(crate) fn build(self) -> (r: State)
        ensures
            r@ == self.spec_tape(),
    {
        State::new(self.size, self.overflow_strategy.resolve())
    }
}

} // verus!
