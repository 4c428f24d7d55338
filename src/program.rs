use vstd::prelude::*;

use crate::io::{Callbacks, Event};
use crate::state::{State, StateBuilder, Tape};

verus! {

/// A parsed program: the operations of one level, in order.
pub struct Program {
    ops: Vec<Op>,
}

impl View for Program {
    type V = Seq<Op>;

    closed spec fn view(&self) -> Seq<Op> {
        self.ops@
    }
}

/// One operation: a primitive on the tape or on input and output, or a loop
/// that owns its body.
pub enum Op {
    Inc,
    Dec,
    MoveL,
    MoveR,
    Read,
    Write,
    Loop(Program),
}

/// Whether `c` is one of the six primitive operation symbols.
pub open spec fn is_primitive(c: char) -> bool {
    c == '+' || c == '-' || c == '<' || c == '>' || c == ',' || c == '.'
}

/// Whether `c` means anything to the parser; all other characters are comments.
pub open spec fn is_command(c: char) -> bool {
    is_primitive(c) || c == '[' || c == ']'
}

/// The characters of `s` that are commands, in order.
pub open spec fn commands(s: Seq<char>) -> Seq<char>
    decreases s.len(),
{
    if s.len() == 0 {
        Seq::empty()
    } else if is_command(s.last()) {
        commands(s.drop_last()).push(s.last())
    } else {
        commands(s.drop_last())
    }
}

/// Open brackets minus close brackets in `s`.
pub open spec fn nest(s: Seq<char>) -> int
    decreases s.len(),
{
    if s.len() == 0 {
        0
    } else {
        nest(s.drop_last()) + if s.last() == '[' {
            1int
        } else if s.last() == ']' {
            -1int
        } else {
            0int
        }
    }
}

/// No prefix of `s` closes more brackets than it opens.
pub open spec fn never_negative(s: Seq<char>) -> bool
    decreases s.len(),
{
    s.len() == 0 || (never_negative(s.drop_last()) && nest(s) >= 0)
}

/// Every `]` of `s` closes an earlier `[`, and every `[` is closed.
pub open spec fn balanced(s: Seq<char>) -> bool {
    never_negative(commands(s)) && nest(commands(s)) == 0
}

/// The symbol of a primitive operation.
pub open spec fn symbol(op: Op) -> char {
    match op {
        Op::Inc => '+',
        Op::Dec => '-',
        Op::MoveL => '<',
        Op::MoveR => '>',
        Op::Read => ',',
        Op::Write => '.',
        Op::Loop(_) => '[',
    }
}

/// The canonical source text of a sequence of operations.
pub open spec fn render(ops: Seq<Op>) -> Seq<char>
    decreases ops, 0nat,
{
    if ops.len() == 0 {
        Seq::empty()
    } else {
        render(ops.drop_last()) + render_op(ops.last())
    }
}

/// The canonical source text of one operation.
pub open spec fn render_op(op: Op) -> Seq<char>
    decreases op, 0nat,
{
    match op {
        Op::Loop(p) => seq!['['] + render(p@) + seq![']'],
        _ => seq![symbol(op)],
    }
}


/// The views of a stack of in-progress operation sequences.
pub open spec fn frames(stack: Seq<Vec<Op>>) -> Seq<Seq<Op>> {
    stack.map_values(|v: Vec<Op>| v@)
}

/// The text that a stack of in-progress sequences stands for: the sequences
/// rendered in order, each nested one opened by a `[`.
pub open spec fn render_stack(fs: Seq<Seq<Op>>) -> Seq<char>
    decreases fs.len(),
{
    if fs.len() == 0 {
        Seq::empty()
    } else if fs.len() == 1 {
        render(fs[0])
    } else {
        render_stack(fs.drop_last()) + seq!['['] + render(fs.last())
    }
}

/// The text before the innermost sequence of a stack.
pub open spec fn stack_prefix(fs: Seq<Seq<Op>>) -> Seq<char> {
    if fs.len() <= 1 {
        Seq::empty()
    } else {
        render_stack(fs.drop_last()) + seq!['[']
    }
}

proof fn lemma_render_stack_last(fs: Seq<Seq<Op>>, v: Seq<Op>)
    requires
        fs.len() >= 1,
    ensures
        render_stack(fs) == stack_prefix(fs) + render(fs.last()),
        render_stack(fs.drop_last().push(v)) == stack_prefix(fs) + render(v),
{
    let g = fs.drop_last().push(v);
    assert(g.drop_last() =~= fs.drop_last());
    if fs.len() == 1 {
        assert(stack_prefix(fs) + render(fs.last()) =~= render(fs.last()));
        assert(stack_prefix(fs) + render(v) =~= render(v));
    }
}

proof fn lemma_render_push(ops: Seq<Op>, op: Op)
    ensures
        render(ops.push(op)) == render(ops) + render_op(op),
{
    assert(ops.push(op).drop_last() =~= ops);
}

proof fn lemma_commands_step(s: Seq<char>, i: int)
    requires
        0 <= i < s.len(),
    ensures
        commands(s.take(i + 1)) == if is_command(s[i]) {
            commands(s.take(i)).push(s[i])
        } else {
            commands(s.take(i))
        },
{
    assert(s.take(i + 1).drop_last() =~= s.take(i));
}

proof fn lemma_nest_push(s: Seq<char>, c: char)
    ensures
        nest(s.push(c)) == nest(s) + if c == '[' {
            1int
        } else if c == ']' {
            -1int
        } else {
            0int
        },
        never_negative(s.push(c)) == (never_negative(s) && nest(s.push(c)) >= 0),
{
    assert(s.push(c).drop_last() =~= s);
}

/// A prefix that closes more brackets than it opened spoils the whole text.
proof fn lemma_prefix_negative(s: Seq<char>, j: int)
    requires
        0 <= j <= s.len(),
        never_negative(commands(s)),
    ensures
        never_negative(commands(s.take(j))),
    decreases s.len(),
{
    if j == s.len() {
        assert(s.take(j) =~= s);
    } else {
        let d = s.drop_last();
        assert(s.take(s.len() - 1) =~= d);
        lemma_commands_step(s, s.len() - 1);
        if is_command(s.last()) {
            lemma_nest_push(commands(d), s.last());
        }
        assert(d.take(j) =~= s.take(j));
        lemma_prefix_negative(d, j);
    }
}

/// Why an execution stopped before the end of the program.
#[derive(Clone, Copy, Debug, PartialEq, Eq, Structural)]
pub enum Fault {
    /// The overflow policy refused an increment or a decrement.
    Overflow,
    /// The cursor left the tape, or moved below cell 0.
    OutOfBounds,
    /// A loop ran its body as many times as the configured limit allows, and
    /// its guard cell was still nonzero.
    IterationLimit,
}

/// Where running some operations on a tape and a queue of input bytes leads.
/// The events are the calls made across the I/O boundary, in order.
pub enum Outcome {
    /// They finished with this tape and these input bytes left unread.
    Done(Tape, Seq<u8>, Seq<Event>),
    /// They stopped on this fault, after these events.
    Failed(Fault, Seq<Event>),
    /// A read found the input queue empty.
    Starved,
}

/// `o`, after the events `tr`.
pub open spec fn after(tr: Seq<Event>, o: Outcome) -> Outcome {
    match o {
        Outcome::Done(t, rest, more) => Outcome::Done(t, rest, tr + more),
        Outcome::Failed(f, more) => Outcome::Failed(f, tr + more),
        Outcome::Starved => Outcome::Starved,
    }
}

/// One primitive operation.
pub open spec fn step(op: Op, t: Tape, ins: Seq<u8>) -> Outcome {
    match op {
        Op::Inc => if !t.in_bounds() {
            Outcome::Failed(Fault::OutOfBounds, Seq::empty())
        } else {
            match t.inc.spec_apply(t.cell()) {
                Some(v) => Outcome::Done(t.with_cell(v), ins, Seq::empty()),
                None => Outcome::Failed(Fault::Overflow, Seq::empty()),
            }
        },
        Op::Dec => if !t.in_bounds() {
            Outcome::Failed(Fault::OutOfBounds, Seq::empty())
        } else {
            match t.dec.spec_apply(t.cell()) {
                Some(v) => Outcome::Done(t.with_cell(v), ins, Seq::empty()),
                None => Outcome::Failed(Fault::Overflow, Seq::empty()),
            }
        },
        Op::MoveL => if t.pos > 0 {
            Outcome::Done(t.with_pos(t.pos - 1), ins, Seq::empty())
        } else {
            Outcome::Failed(Fault::OutOfBounds, Seq::empty())
        },
        Op::MoveR => if t.pos < usize::MAX {
            Outcome::Done(t.with_pos(t.pos + 1), ins, Seq::empty())
        } else {
            Outcome::Failed(Fault::OutOfBounds, Seq::empty())
        },
        Op::Read => if !t.in_bounds() {
            Outcome::Failed(Fault::OutOfBounds, Seq::empty())
        } else if ins.len() == 0 {
            Outcome::Starved
        } else {
            Outcome::Done(t.with_cell(ins[0]), ins.drop_first(), seq![Event::In(ins[0])])
        },
        Op::Write => if !t.in_bounds() {
            Outcome::Failed(Fault::OutOfBounds, Seq::empty())
        } else {
            Outcome::Done(t, ins, seq![Event::Out(t.cell())])
        },
        Op::Loop(_) => Outcome::Done(t, ins, Seq::empty()),
    }
}

/// Runs `ops` in order; each loop may run its body at most `limit` times
/// per entry.
pub open spec fn run(ops: Seq<Op>, t: Tape, ins: Seq<u8>, limit: nat) -> Outcome
    decreases ops, 0nat, 0nat,
{
    if ops.len() == 0 {
        Outcome::Done(t, ins, Seq::empty())
    } else {
        match run(ops.drop_last(), t, ins, limit) {
            Outcome::Done(t2, rest, tr) => after(tr, run_op(ops.last(), t2, rest, limit)),
            o => o,
        }
    }
}

/// One operation; a loop may run its body at most `limit` times.
pub open spec fn run_op(op: Op, t: Tape, ins: Seq<u8>, limit: nat) -> Outcome
    decreases op, 0nat, 0nat,
{
    match op {
        Op::Loop(p) => run_loop(p@, t, ins, limit, limit),
        _ => step(op, t, ins),
    }
}

/// A loop with body `body` that may still run it `k` times: while the
/// current cell is nonzero, run the body again.
pub open spec fn run_loop(body: Seq<Op>, t: Tape, ins: Seq<u8>, limit: nat, k: nat) -> Outcome
    decreases body, 1nat, k,
{
    if !t.in_bounds() {
        Outcome::Failed(Fault::OutOfBounds, Seq::empty())
    } else if t.cell() == 0 {
        Outcome::Done(t, ins, Seq::empty())
    } else if k == 0 {
        Outcome::Failed(Fault::IterationLimit, Seq::empty())
    } else {
        match run(body, t, ins, limit) {
            Outcome::Done(t2, rest, tr) => after(tr, run_loop(body, t2, rest, limit, (k - 1) as nat)),
            o => o,
        }
    }
}

/// `b` is `a` run with `ys` queued after its input.
pub open spec fn extended(a: Outcome, b: Outcome, ys: Seq<u8>) -> bool {
    match a {
        Outcome::Done(t, rest, tr) => b == Outcome::Done(t, rest + ys, tr),
        Outcome::Failed(f, tr) => b == Outcome::Failed(f, tr),
        Outcome::Starved => true,
    }
}

/// Whether an executor's result, with the events it caused, agrees with an
/// outcome that read all its input.
pub open spec fn agrees(r: Result<(), Fault>, t: Tape, tr: Seq<Event>, o: Outcome) -> bool {
    match r {
        Ok(()) => o == Outcome::Done(t, Seq::empty(), tr),
        Err(f) => o == Outcome::Failed(f, tr),
    }
}

/// Every byte of `ins` is a value that the read callback of `io` may return.
pub open spec fn readable<R: Fn() -> u8, W: Fn(u8)>(io: Callbacks<R, W>, ins: Seq<u8>) -> bool {
    forall|i: int| 0 <= i < ins.len() ==> io.may_give(#[trigger] ins[i])
}

/// No events before an outcome leave it as it is.
proof fn lemma_after_empty(o: Outcome)
    ensures
        after(Seq::empty(), o) == o,
{
    match o {
        Outcome::Done(t, r, tr) => assert(Seq::<Event>::empty() + tr =~= tr),
        Outcome::Failed(f, tr) => assert(Seq::<Event>::empty() + tr =~= tr),
        _ => {},
    }
}

/// Events before events before an outcome are their concatenation.
pub proof fn lemma_after_after(a: Seq<Event>, b: Seq<Event>, o: Outcome)
    ensures
        after(a, after(b, o)) == after(a + b, o),
{
    match o {
        Outcome::Done(t, r, tr) => assert(a + (b + tr) =~= (a + b) + tr),
        Outcome::Failed(f, tr) => assert(a + (b + tr) =~= (a + b) + tr),
        _ => {},
    }
}

/// Queuing more input behind a run's input changes nothing but what is
/// left unread.
pub proof fn lemma_frame(ops: Seq<Op>, t: Tape, xs: Seq<u8>, ys: Seq<u8>, limit: nat)
    ensures
        extended(run(ops, t, xs, limit), run(ops, t, xs + ys, limit), ys),
    decreases ops, 0nat, 0nat,
{
    if ops.len() > 0 {
        lemma_frame(ops.drop_last(), t, xs, ys, limit);
        if let Outcome::Done(t2, rest, tr) = run(ops.drop_last(), t, xs, limit) {
            lemma_frame_op(ops.last(), t2, rest, ys, limit);
        }
    }
}

proof fn lemma_frame_op(op: Op, t: Tape, xs: Seq<u8>, ys: Seq<u8>, limit: nat)
    ensures
        extended(run_op(op, t, xs, limit), run_op(op, t, xs + ys, limit), ys),
    decreases op, 0nat, 0nat,
{
    match op {
        Op::Loop(p) => lemma_frame_loop(p@, t, xs, ys, limit, limit),
        Op::Read => {
            if xs.len() > 0 {
                assert((xs + ys).drop_first() =~= xs.drop_first() + ys);
                assert((xs + ys)[0] == xs[0]);
            }
        },
        _ => {},
    }
}

proof fn lemma_frame_loop(body: Seq<Op>, t: Tape, xs: Seq<u8>, ys: Seq<u8>, limit: nat, k: nat)
    ensures
        extended(run_loop(body, t, xs, limit, k), run_loop(body, t, xs + ys, limit, k), ys),
    decreases body, 1nat, k,
{
    if t.in_bounds() && t.cell() != 0 && k > 0 {
        lemma_frame(body, t, xs, ys, limit);
        if let Outcome::Done(t2, rest, tr) = run(body, t, xs, limit) {
            lemma_frame_loop(body, t2, rest, ys, limit, (k - 1) as nat);
        }
    }
}

/// A fault in a prefix of a sequence of operations is the fault of the whole.
proof fn lemma_run_failed_prefix(
    ops: Seq<Op>,
    j: int,
    t: Tape,
    ins: Seq<u8>,
    limit: nat,
    f: Fault,
    tr: Seq<Event>,
)
    requires
        0 <= j <= ops.len(),
        run(ops.take(j), t, ins, limit) == Outcome::Failed(f, tr),
    ensures
        run(ops, t, ins, limit) == Outcome::Failed(f, tr),
    decreases ops.len() - j,
{
    if j < ops.len() {
        assert(ops.take(j + 1).drop_last() =~= ops.take(j));
        lemma_run_failed_prefix(ops, j + 1, t, ins, limit, f, tr);
    } else {
        assert(ops.take(j) =~= ops);
    }
}

impl Op {
    /// The primitive operation that `c` stands for, if any.
    fn from(c: char) -> (r: Result<Op, ()>)
        ensures
            r is Ok <==> is_primitive(c),
            r is Ok ==> render_op(r->Ok_0) == seq![c],
    {
        match c {
            '+' => Ok(Op::Inc),
            '-' => Ok(Op::Dec),
            '<' => Ok(Op::MoveL),
            '>' => Ok(Op::MoveR),
            ',' => Ok(Op::Read),
            '.' => Ok(Op::Write),
            _ => Err(()),
        }
    }

    /// Runs this operation on `s`, calling the read callback once per `,`
    /// and the write callback once per `.`, through `io`. Also gives back the
    /// bytes read and the events caused, in order.
    fn exec<R: Fn() -> u8, W: Fn(u8)>(
        &self,
        s: &mut State,
        io: &mut Callbacks<R, W>,
        limit: u64,
    ) -> (r: (Result<(), Fault>, Ghost<Seq<u8>>, Ghost<Seq<Event>>))
        requires
            old(io).ready(),
        ensures
            final(io).ready(),
            forall|b: u8| final(io).may_give(b) == old(io).may_give(b),
            final(io).events() == old(io).events() + r.2@,
            readable(*old(io), r.1@),
            agrees(r.0, final(s)@, r.2@, run_op(*self, old(s)@, r.1@, limit as nat)),
        decreases self, 0nat,
    {
        let ghost none: Seq<Event> = Seq::empty();
        proof {
            assert(io.events() + none =~= io.events());
        }
        match self {
            Op::Inc => {
                if !s.in_bounds() {
                    return (Err(Fault::OutOfBounds), Ghost(Seq::empty()), Ghost(none));
                }
                match s.peek_inc() {
                    None => (Err(Fault::Overflow), Ghost(Seq::empty()), Ghost(none)),
                    Some(_) => {
                        s.inc();
                        (Ok(()), Ghost(Seq::empty()), Ghost(none))
                    },
                }
            },
            Op::Dec => {
                if !s.in_bounds() {
                    return (Err(Fault::OutOfBounds), Ghost(Seq::empty()), Ghost(none));
                }
                match s.peek_dec() {
                    None => (Err(Fault::Overflow), Ghost(Seq::empty()), Ghost(none)),
                    Some(_) => {
                        s.dec();
                        (Ok(()), Ghost(Seq::empty()), Ghost(none))
                    },
                }
            },
            Op::MoveL => {
                if !s.can_move_l() {
                    return (Err(Fault::OutOfBounds), Ghost(Seq::empty()), Ghost(none));
                }
                s.move_l();
                (Ok(()), Ghost(Seq::empty()), Ghost(none))
            },
            Op::MoveR => {
                if !s.can_move_r() {
                    return (Err(Fault::OutOfBounds), Ghost(Seq::empty()), Ghost(none));
                }
                s.move_r();
                (Ok(()), Ghost(Seq::empty()), Ghost(none))
            },
            Op::Read => {
                if !s.in_bounds() {
                    return (Err(Fault::OutOfBounds), Ghost(Seq::empty()), Ghost(none));
                }
                let ghost e0 = io.events();
                let v = io.read();
                s.set(v);
                let ghost got: Seq<u8> = seq![v];
                let ghost ev: Seq<Event> = seq![Event::In(v)];
                proof {
                    assert(got.drop_first() =~= Seq::<u8>::empty());
                    assert(e0.push(Event::In(v)) =~= e0 + ev);
                }
                (Ok(()), Ghost(got), Ghost(ev))
            },
            Op::Write => {
                if !s.in_bounds() {
                    return (Err(Fault::OutOfBounds), Ghost(Seq::empty()), Ghost(none));
                }
                let ghost e0 = io.events();
                let v = s.get();
                io.write(v);
                let ghost ev: Seq<Event> = seq![Event::Out(v)];
                proof {
                    assert(e0.push(Event::Out(v)) =~= e0 + ev);
                }
                (Ok(()), Ghost(Seq::empty()), Ghost(ev))
            },
            Op::Loop(p) => {
                let ghost t0 = s@;
                let ghost e0 = io.events();
                let ghost io0 = *io;
                let ghost body = p@;
                let ghost lim = limit as nat;
                let ghost mut acc: Seq<u8> = Seq::empty();
                let ghost mut log: Seq<Event> = Seq::empty();
                let mut k: u64 = limit;
                proof {
                    assert forall|f: Seq<u8>|
                        run_loop(body, t0, acc + f, lim, lim) == after(
                            log,
                            #[trigger] run_loop(body, s@, f, lim, k as nat),
                        ) by {
                        assert(acc + f =~= f);
                        lemma_after_empty(run_loop(body, s@, f, lim, k as nat));
                    }
                }
                loop
                    invariant
                        io.ready(),
                        forall|b: u8| io.may_give(b) == io0.may_give(b),
                        io0 == *old(io),
                        io.events() == e0 + log,
                        e0 == old(io).events(),
                        readable(io0, acc),
                        body == p@,
                        lim == limit as nat,
                        *self == Op::Loop(*p),
                        t0 == old(s)@,
                        forall|f: Seq<u8>|
                            run_loop(body, t0, acc + f, lim, lim) == after(
                                log,
                                #[trigger] run_loop(body, s@, f, lim, k as nat),
                            ),
                    decreases k,
                {
                    proof {
                        assert(acc + Seq::<u8>::empty() =~= acc);
                        assert(run_loop(body, t0, acc + Seq::<u8>::empty(), lim, lim) == after(
                            log,
                            run_loop(body, s@, Seq::<u8>::empty(), lim, k as nat),
                        ));
                        assert(log + Seq::<Event>::empty() =~= log);
                    }
                    if !s.in_bounds() {
                        return (Err(Fault::OutOfBounds), Ghost(acc), Ghost(log));
                    }
                    if s.get() == 0 {
                        return (Ok(()), Ghost(acc), Ghost(log));
                    }
                    if k == 0 {
                        return (Err(Fault::IterationLimit), Ghost(acc), Ghost(log));
                    }
                    let ghost tk = s@;
                    let (r, Ghost(xs), Ghost(ev)) = p.exec_with(s, io, limit);
                    proof {
                        lemma_frame(body, tk, xs, Seq::empty(), lim);
                        assert(xs + Seq::<u8>::empty() =~= xs);
                        assert(run_loop(body, t0, acc + (xs + Seq::<u8>::empty()), lim, lim)
                            == after(log, run_loop(body, tk, xs + Seq::<u8>::empty(), lim, k as nat)));
                        assert(acc + (xs + Seq::<u8>::empty()) =~= acc + xs);
                        assert((e0 + log) + ev =~= e0 + (log + ev));
                        assert forall|i: int| 0 <= i < (acc + xs).len() implies io0.may_give(
                            #[trigger] (acc + xs)[i],
                        ) by {
                            if i >= acc.len() {
                                assert((acc + xs)[i] == xs[i - acc.len()]);
                            }
                        }
                    }
                    match r {
                        Err(f) => {
                            return (Err(f), Ghost(acc + xs), Ghost(log + ev));
                        },
                        Ok(()) => {},
                    }
                    proof {
                        assert forall|f: Seq<u8>|
                            run_loop(body, t0, (acc + xs) + f, lim, lim) == after(
                                log + ev,
                                #[trigger] run_loop(body, s@, f, lim, (k - 1) as nat),
                            ) by {
                            lemma_frame(body, tk, xs, f, lim);
                            assert(xs + f =~= Seq::<u8>::empty() + (xs + f));
                            assert(run_loop(body, t0, acc + (xs + f), lim, lim) == after(
                                log,
                                run_loop(body, tk, xs + f, lim, k as nat),
                            ));
                            assert((acc + xs) + f =~= acc + (xs + f));
                            assert(Seq::<u8>::empty() + f =~= f);
                            lemma_after_after(log, ev, run_loop(body, s@, f, lim, (k - 1) as nat));
                        }
                        acc = acc + xs;
                        log = log + ev;
                    }
                    k = k - 1;
                }
            },
        }
    }
}

impl Program {
    /// Parses source text. Characters other than the eight commands are
    /// ignored; the parse fails exactly when the brackets do not match.
    pub fn parse(s: &str) -> (r: Option<Program>)
        ensures
            r is Some <==> balanced(s@),
            r is Some ==> render(r->0@) == commands(s@),
    {
        let mut stack: Vec<Vec<Op>> = Vec::new();
        stack.push(Vec::new());
        proof {
            assert(frames(stack@) =~= seq![Seq::<Op>::empty()]);
            assert(s@.take(0) =~= Seq::<char>::empty());
        }
        for c in it: s.chars()
            invariant
                it.seq() == s@,
                stack.len() >= 1,
                stack.len() == nest(commands(s@.take(it.index() as int))) + 1,
                never_negative(commands(s@.take(it.index() as int))),
                render_stack(frames(stack@)) == commands(s@.take(it.index() as int)),
        {
            let ghost i = it.index() as int;
            let ghost fs = frames(stack@);
            let ghost pre = commands(s@.take(i));
            proof {
                lemma_commands_step(s@, i);
                lemma_nest_push(pre, c);
            }
            match Op::from(c) {
                Ok(op) => {
                    let mut top = stack.pop().unwrap();
                    proof {
                        lemma_render_push(top@, op);
                    }
                    top.push(op);
                    stack.push(top);
                    proof {
                        let nfs = frames(stack@);
                        assert(nfs =~= fs.drop_last().push(top@));
                        lemma_render_stack_last(fs, top@);
                        assert(render_stack(nfs) =~= render_stack(fs) + seq![c]);
                    }
                },
                Err(_) => {
                    if c == '[' {
                        stack.push(Vec::new());
                        proof {
                            let nfs = frames(stack@);
                            assert(nfs.drop_last() =~= fs);
                            assert(render(nfs.last()) =~= Seq::<char>::empty());
                            assert(render_stack(nfs) =~= render_stack(fs) + seq![c]);
                        }
                    } else if c == ']' {
                        if stack.len() < 2 {
                            proof {
                                assert(!never_negative(commands(s@.take(i + 1))));
                                if never_negative(commands(s@)) {
                                    lemma_prefix_negative(s@, i + 1);
                                }
                            }
                            return None;
                        }
                        let t = stack.pop().unwrap();
                        let mut top = stack.pop().unwrap();
                        let ghost body = t@;
                        let lp = Op::Loop(Program { ops: t });
                        proof {
                            lemma_render_push(top@, lp);
                        }
                        top.push(lp);
                        stack.push(top);
                        proof {
                            let nfs = frames(stack@);
                            let base = fs.drop_last();
                            assert(nfs =~= base.drop_last().push(top@));
                            lemma_render_stack_last(base, top@);
                            assert(fs.drop_last() =~= base);
                            assert(render_stack(fs) == render_stack(base) + seq!['['] + render(body));
                            assert(render_op(lp) == seq!['['] + render(body) + seq![']']);
                            assert(render_stack(nfs) =~= render_stack(fs) + seq![c]);
                        }
                    }
                },
            }
        }
        proof {
            assert(s@.take(s@.len() as int) =~= s@);
        }
        if stack.len() == 1 {
            let ops = stack.pop().unwrap();
            proof {
                let fs = frames(seq![ops]);
                assert(fs =~= seq![ops@]);
                assert(fs.drop_last().len() == 0);
            }
            Some(Program { ops })
        } else {
            None
        }
    }

    /// Runs the program on a tape built from `state_builder`, calling the
    /// read callback of `io` once for each `,` executed and its write callback
    /// once for each `.` executed, with the current cell, in program order.
    /// Gives back the final tape, or the fault that stopped the run. The
    /// events that `io` logs during the call are exactly those of `run` on
    /// the bytes that the read callback returned.
    pub fn exec<R: Fn() -> u8, W: Fn(u8)>(
        &self,
        state_builder: StateBuilder,
        io: &mut Callbacks<R, W>,
    ) -> (r: Result<State, Fault>)
        requires
            old(io).ready(),
        ensures
            final(io).ready(),
            exists|ins: Seq<u8>, tr: Seq<Event>|
                #![trigger run(self@, state_builder.spec_tape(), ins, state_builder.iteration_limit as nat), old(io).events() + tr]
                readable(*old(io), ins) && final(io).events() == old(io).events() + tr && match r {
                    Ok(s) => run(self@, state_builder.spec_tape(), ins, state_builder.iteration_limit as nat)
                        == Outcome::Done(s@, Seq::empty(), tr),
                    Err(f) => run(self@, state_builder.spec_tape(), ins, state_builder.iteration_limit as nat)
                        == Outcome::Failed(f, tr),
                },
    {
        let limit = state_builder.iteration_limit;
        let mut state = state_builder.build();
        let (r, Ghost(reads), Ghost(events)) = self.exec_with(&mut state, io, limit);
        proof {
            assert(readable(*old(io), reads));
        }
        match r {
            Ok(()) => Ok(state),
            Err(f) => Err(f),
        }
    }

    fn exec_with<R: Fn() -> u8, W: Fn(u8)>(
        &self,
        s: &mut State,
        io: &mut Callbacks<R, W>,
        limit: u64,
    ) -> (r: (Result<(), Fault>, Ghost<Seq<u8>>, Ghost<Seq<Event>>))
        requires
            old(io).ready(),
        ensures
            final(io).ready(),
            forall|b: u8| final(io).may_give(b) == old(io).may_give(b),
            final(io).events() == old(io).events() + r.2@,
            readable(*old(io), r.1@),
            agrees(r.0, final(s)@, r.2@, run(self@, old(s)@, r.1@, limit as nat)),
        decreases self, 1nat,
    {
        let ghost t0 = s@;
        let ghost e0 = io.events();
        let ghost io0 = *io;
        let ghost lim = limit as nat;
        let ghost mut acc: Seq<u8> = Seq::empty();
        let ghost mut log: Seq<Event> = Seq::empty();
        proof {
            assert(self@.take(0) =~= Seq::<Op>::empty());
            assert(e0 + log =~= e0);
        }
        let mut i: usize = 0;
        while i < self.ops.len()
            invariant
                io.ready(),
                forall|b: u8| io.may_give(b) == io0.may_give(b),
                io0 == *old(io),
                e0 == old(io).events(),
                io.events() == e0 + log,
                i <= self@.len(),
                t0 == old(s)@,
                self@ == self.ops@,
                lim == limit as nat,
                readable(io0, acc),
                run(self@.take(i as int), t0, acc, lim) == Outcome::Done(s@, Seq::empty(), log),
            decreases self@.len() - i,
        {
            let ghost ti = s@;
            let (r, Ghost(xs), Ghost(ev)) = self.ops[i].exec(s, io, limit);
            proof {
                let pre = self@.take(i as int);
                let nxt = self@.take(i + 1);
                lemma_frame(pre, t0, acc, xs, lim);
                assert(Seq::<u8>::empty() + xs =~= xs);
                assert(nxt.drop_last() =~= pre);
                assert(nxt.last() == self.ops@[i as int]);
                assert((e0 + log) + ev =~= e0 + (log + ev));
                assert forall|j: int| 0 <= j < (acc + xs).len() implies io0.may_give(
                    #[trigger] (acc + xs)[j],
                ) by {
                    if j >= acc.len() {
                        assert((acc + xs)[j] == xs[j - acc.len()]);
                    }
                }
                assert(Seq::<u8>::empty() + Seq::<u8>::empty() =~= Seq::<u8>::empty());
            }
            match r {
                Err(f) => {
                    proof {
                        lemma_run_failed_prefix(self@, i + 1, t0, acc + xs, lim, f, log + ev);
                    }
                    return (Err(f), Ghost(acc + xs), Ghost(log + ev));
                },
                Ok(()) => {},
            }
            proof {
                acc = acc + xs;
                log = log + ev;
            }
            i += 1;
        }
        proof {
            assert(self@.take(self@.len() as int) =~= self@);
        }
        (Ok(()), Ghost(acc), Ghost(log))
    }
}

proof fn lemma_nest_concat(u: Seq<char>, v: Seq<char>)
    ensures
        nest(u + v) == nest(u) + nest(v),
    decreases v.len(),
{
    if v.len() == 0 {
        assert(u + v =~= u);
    } else {
        assert((u + v).drop_last() =~= u + v.drop_last());
        assert((u + v).last() == v.last());
        lemma_nest_concat(u, v.drop_last());
    }
}

proof fn lemma_nest_single(c: char)
    ensures
        nest(seq![c]) == if c == '[' {
            1int
        } else if c == ']' {
            -1int
        } else {
            0int
        },
{
    assert(seq![c].drop_last() =~= Seq::<char>::empty());
    assert(seq![c].last() == c);
    assert(nest(Seq::<char>::empty()) == 0);
}

/// Canonical text opens and closes the same number of brackets, and none of
/// its prefixes closes more than it opens.
proof fn lemma_render_shape(z: Seq<Op>)
    ensures
        nest(render(z)) == 0,
        forall|m: int| 0 <= m <= render(z).len() ==> nest(#[trigger] render(z).take(m)) >= 0,
    decreases z, 0nat,
{
    if z.len() == 0 {
        assert forall|m: int| 0 <= m <= render(z).len() implies nest(#[trigger] render(z).take(m))
            >= 0 by {
            assert(render(z).take(m) =~= Seq::<char>::empty());
        }
    } else {
        let u = render(z.drop_last());
        let o = render_op(z.last());
        lemma_render_shape(z.drop_last());
        lemma_render_op_shape(z.last());
        lemma_nest_concat(u, o);
        assert forall|m: int| 0 <= m <= render(z).len() implies nest(#[trigger] render(z).take(m))
            >= 0 by {
            if m <= u.len() {
                assert(render(z).take(m) =~= u.take(m));
            } else {
                assert(render(z).take(m) =~= u + o.take(m - u.len()));
                lemma_nest_concat(u, o.take(m - u.len()));
                assert(u.take(u.len() as int) =~= u);
            }
        }
    }
}

proof fn lemma_render_op_shape(x: Op)
    ensures
        render_op(x).len() >= 1,
        nest(render_op(x)) == 0,
        forall|j: int| 0 <= j <= render_op(x).len() ==> nest(#[trigger] render_op(x).take(j)) >= 0,
        x is Loop ==> forall|j: int|
            1 <= j < render_op(x).len() ==> nest(#[trigger] render_op(x).take(j)) >= 1,
        !(x is Loop) ==> render_op(x).len() == 1,
    decreases x, 0nat,
{
    match x {
        Op::Loop(p) => {
            let r = render(p@);
            lemma_render_shape(p@);
            lemma_nest_single('[');
            lemma_nest_single(']');
            lemma_nest_concat(seq!['['], r);
            lemma_nest_concat(seq!['['] + r, seq![']']);
            assert forall|j: int| 1 <= j < render_op(x).len() implies nest(
                #[trigger] render_op(x).take(j),
            ) >= 1 by {
                assert(render_op(x).take(j) =~= seq!['['] + r.take(j - 1));
                lemma_nest_concat(seq!['['], r.take(j - 1));
            }
            assert forall|j: int| 0 <= j <= render_op(x).len() implies nest(
                #[trigger] render_op(x).take(j),
            ) >= 0 by {
                if j == 0 {
                    assert(render_op(x).take(j) =~= Seq::<char>::empty());
                } else if j == render_op(x).len() {
                    assert(render_op(x).take(j) =~= render_op(x));
                }
            }
        },
        _ => {
            lemma_nest_single(render_op(x)[0]);
            assert forall|j: int| 0 <= j <= render_op(x).len() implies nest(
                #[trigger] render_op(x).take(j),
            ) >= 0 by {
                if j == 0 {
                    assert(render_op(x).take(j) =~= Seq::<char>::empty());
                } else {
                    assert(render_op(x).take(j) =~= render_op(x));
                }
            }
        },
    }
}



proof fn lemma_split_not_shorter(ua: Seq<char>, x: Op, ub: Seq<char>, ob: Seq<char>)
    requires
        ua + render_op(x) == ub + ob,
        nest(ua) == 0,
        nest(ub) == 0,
        ob.len() >= 1,
    ensures
        ua.len() >= ub.len(),
{
    let oa = render_op(x);
    let w = ua + oa;
    lemma_render_op_shape(x);
    if ua.len() < ub.len() {
        let j = ub.len() - ua.len();
        assert(w.len() == ub.len() + ob.len());
        assert(w.len() == ua.len() + oa.len());
        assert(1 <= j < oa.len());
        assert(w.take(ub.len() as int) =~= ub);
        assert(w.take(ub.len() as int) =~= ua + oa.take(j));
        lemma_nest_concat(ua, oa.take(j));
        assert(nest(oa.take(j)) >= 1);
    }
}

/// Two sequences with the same canonical text end in operations with the
/// same text, after prefixes with the same text.
proof fn lemma_render_split(a: Seq<Op>, b: Seq<Op>)
    requires
        render(a) == render(b),
        a.len() > 0,
        b.len() > 0,
    ensures
        render(a.drop_last()) == render(b.drop_last()),
        render_op(a.last()) == render_op(b.last()),
{
    let ua = render(a.drop_last());
    let ub = render(b.drop_last());
    let oa = render_op(a.last());
    let ob = render_op(b.last());
    lemma_render_shape(a.drop_last());
    lemma_render_shape(b.drop_last());
    lemma_render_op_shape(a.last());
    lemma_render_op_shape(b.last());
    lemma_split_not_shorter(ua, a.last(), ub, ob);
    lemma_split_not_shorter(ub, b.last(), ua, oa);
    let w = ua + oa;
    assert(w.take(ua.len() as int) =~= ua);
    assert(w.take(ub.len() as int) =~= ub);
    assert(w.skip(ua.len() as int) =~= oa);
    assert(w.skip(ub.len() as int) =~= ob);
}

/// Operations with the same canonical text are the same primitive, or loops
/// whose bodies have the same canonical text.
proof fn lemma_render_op_same(x: Op, y: Op)
    requires
        render_op(x) == render_op(y),
    ensures
        x is Loop <==> y is Loop,
        !(x is Loop) ==> x == y,
        x is Loop ==> render(x->Loop_0@) == render(y->Loop_0@),
{
    lemma_render_op_shape(x);
    lemma_render_op_shape(y);
    if let Op::Loop(p) = x {
        if let Op::Loop(q) = y {
            let o = render_op(x);
            assert(render(p@) =~= o.subrange(1, o.len() - 1));
            assert(render(q@) =~= o.subrange(1, o.len() - 1));
        }
    } else {
        assert(render_op(x)[0] == render_op(y)[0]);
    }
}

proof fn lemma_render_empty(a: Seq<Op>)
    ensures
        render(a).len() == 0 <==> a.len() == 0,
{
    if a.len() > 0 {
        lemma_render_op_shape(a.last());
    }
}

/// Sequences of operations with the same canonical text run alike.
pub proof fn lemma_same_render_same_run(a: Seq<Op>, b: Seq<Op>, t: Tape, ins: Seq<u8>, limit: nat)
    requires
        render(a) == render(b),
    ensures
        run(a, t, ins, limit) == run(b, t, ins, limit),
    decreases a, 0nat, 0nat,
{
    lemma_render_empty(a);
    lemma_render_empty(b);
    if a.len() > 0 {
        lemma_render_split(a, b);
        lemma_same_render_same_run(a.drop_last(), b.drop_last(), t, ins, limit);
        if let Outcome::Done(t2, rest, tr) = run(a.drop_last(), t, ins, limit) {
            lemma_same_render_same_op(a.last(), b.last(), t2, rest, limit);
        }
    }
}

proof fn lemma_same_render_same_op(x: Op, y: Op, t: Tape, ins: Seq<u8>, limit: nat)
    requires
        render_op(x) == render_op(y),
    ensures
        run_op(x, t, ins, limit) == run_op(y, t, ins, limit),
    decreases x, 0nat, 0nat,
{
    lemma_render_op_same(x, y);
    if let Op::Loop(p) = x {
        if let Op::Loop(q) = y {
            lemma_same_render_same_loop(p@, q@, t, ins, limit, limit);
        }
    }
}

proof fn lemma_same_render_same_loop(
    bp: Seq<Op>,
    bq: Seq<Op>,
    t: Tape,
    ins: Seq<u8>,
    limit: nat,
    k: nat,
)
    requires
        render(bp) == render(bq),
    ensures
        run_loop(bp, t, ins, limit, k) == run_loop(bq, t, ins, limit, k),
    decreases bp, 1nat, k,
{
    if t.in_bounds() && t.cell() != 0 && k > 0 {
        lemma_same_render_same_run(bp, bq, t, ins, limit);
        if let Outcome::Done(t2, rest, tr) = run(bp, t, ins, limit) {
            lemma_same_render_same_loop(bp, bq, t2, rest, limit, (k - 1) as nat);
        }
    }
}

} // verus!
