use vstd::prelude::*;

use crate::program::{
    after, balanced, commands, lemma_after_after, lemma_frame, lemma_same_render_same_run, render, run, run_op, step, Fault,
    Op, Outcome, Program,
};
use crate::io::Event;
use crate::state::{OverflowStrategy, StateBuilder, Tape};

verus! {

/// Characters other than the eight commands do not matter: two texts with
/// the same commands are both balanced or both not, and the programs parsed
/// from them have the same canonical text and run alike on every tape and
/// every input.
pub proof fn law_comments_ignored(s1: Seq<char>, s2: Seq<char>, first: Program, second: Program)
    requires
        commands(s1) == commands(s2),
        balanced(s1) ==> render(first@) == commands(s1),
        balanced(s2) ==> render(second@) == commands(s2),
    ensures
        balanced(s1) == balanced(s2),
        balanced(s1) ==> render(first@) == render(second@),
        balanced(s1) ==> forall|t: Tape, ins: Seq<u8>, limit: nat|
            #[trigger] run(first@, t, ins, limit) == run(second@, t, ins, limit),
{
    if balanced(s1) {
        assert forall|t: Tape, ins: Seq<u8>, limit: nat|
            #[trigger] run(first@, t, ins, limit) == run(second@, t, ins, limit) by {
            lemma_same_render_same_run(first@, second@, t, ins, limit);
        }
    }
}

/// Whether an outcome is one that an execution can report: it finished
/// having read all of its input, or it stopped on a fault.
pub open spec fn settled(o: Outcome) -> bool {
    match o {
        Outcome::Done(_, rest, _) => rest.len() == 0,
        Outcome::Failed(..) => true,
        Outcome::Starved => false,
    }
}

proof fn lemma_settled_prefix(ops: Seq<Op>, t: Tape, xs: Seq<u8>, ys: Seq<u8>, limit: nat)
    requires
        settled(run(ops, t, xs, limit)),
        settled(run(ops, t, xs + ys, limit)),
    ensures
        run(ops, t, xs, limit) == run(ops, t, xs + ys, limit),
{
    lemma_frame(ops, t, xs, ys, limit);
    if let Outcome::Done(t1, rest, tr) = run(ops, t, xs, limit) {
        assert(rest + ys =~= ys);
        assert(ys =~= Seq::<u8>::empty());
        assert(xs + ys =~= xs);
    }
}

/// Two executions of one program with one configuration, whose read
/// callbacks give the same stream of bytes, end alike: the same final tape
/// or the same fault, after the same calls across the I/O boundary.
pub proof fn law_same_reads_same_end(
    p: Program,
    b: StateBuilder,
    stream: Seq<u8>,
    xs: Seq<u8>,
    ys: Seq<u8>,
)
    requires
        xs.len() <= stream.len(),
        ys.len() <= stream.len(),
        xs == stream.take(xs.len() as int),
        ys == stream.take(ys.len() as int),
        settled(run(p@, b.spec_tape(), xs, b.iteration_limit as nat)),
        settled(run(p@, b.spec_tape(), ys, b.iteration_limit as nat)),
    ensures
        run(p@, b.spec_tape(), xs, b.iteration_limit as nat) == run(
            p@,
            b.spec_tape(),
            ys,
            b.iteration_limit as nat,
        ),
{
    let t = b.spec_tape();
    let lim = b.iteration_limit as nat;
    if xs.len() <= ys.len() {
        let extra = ys.skip(xs.len() as int);
        assert(ys =~= xs + extra);
        lemma_settled_prefix(p@, t, xs, extra, lim);
    } else {
        let extra = xs.skip(ys.len() as int);
        assert(xs =~= ys + extra);
        lemma_settled_prefix(p@, t, ys, extra, lim);
    }
}

/// An empty program leaves the tape as it is and calls neither callback.
pub proof fn law_empty_program_is_quiet(t: Tape, ins: Seq<u8>, limit: nat)
    ensures
        run(Seq::<Op>::empty(), t, ins, limit) == Outcome::Done(t, ins, Seq::empty()),
{
}

/// A `.` on the tape calls the write callback once, with the current cell,
/// and never the read callback; a `,` calls the read callback once, and
/// never the write callback.
pub proof fn law_io_once(t: Tape, ins: Seq<u8>)
    requires
        t.in_bounds(),
        ins.len() > 0,
    ensures
        step(Op::Write, t, ins) == Outcome::Done(t, ins, seq![Event::Out(t.cell())]),
        step(Op::Read, t, ins) == Outcome::Done(
            t.with_cell(ins[0]),
            ins.drop_first(),
            seq![Event::In(ins[0])],
        ),
{
}

/// A loop whose guard cell is 0 on entry runs its body zero times: the
/// tape and the input are left as they were, and no callback is called.
pub proof fn law_zero_guard_skips(p: Program, t: Tape, ins: Seq<u8>, limit: nat)
    requires
        t.in_bounds(),
        t.cell() == 0,
    ensures
        run_op(Op::Loop(p), t, ins, limit) == Outcome::Done(t, ins, Seq::empty()),
{
}

/// At 255, an increment gives 0 under the wrapping and the default
/// policies, and is refused under the panicking policy.
pub proof fn law_increment_at_255(t: Tape, ins: Seq<u8>, strategy: OverflowStrategy)
    requires
        t.in_bounds(),
        t.cell() == 255,
        t.inc == strategy.spec_resolve().0,
    ensures
        strategy is Wrap ==> step(Op::Inc, t, ins) == Outcome::Done(t.with_cell(0), ins, Seq::empty()),
        strategy is Default ==> step(Op::Inc, t, ins) == Outcome::Done(t.with_cell(0), ins, Seq::empty()),
        strategy is Panic ==> step(Op::Inc, t, ins) == Outcome::Failed(Fault::Overflow, Seq::empty()),
{
}


/// Running `a` and then `b` is running their concatenation: `b` starts
/// from the tape and the unread input that `a` left, and its events follow
/// those of `a`.
pub proof fn law_sequence(a: Seq<Op>, b: Seq<Op>, t: Tape, ins: Seq<u8>, limit: nat)
    ensures
        run(a + b, t, ins, limit) == match run(a, t, ins, limit) {
            Outcome::Done(t2, rest, tr) => after(tr, run(b, t2, rest, limit)),
            o => o,
        },
    decreases b.len(),
{
    if b.len() == 0 {
        assert(a + b =~= a);
        if let Outcome::Done(t2, rest, tr) = run(a, t, ins, limit) {
            assert(tr + Seq::<Event>::empty() =~= tr);
        }
    } else {
        let bl = b.drop_last();
        assert((a + b).drop_last() =~= a + bl);
        assert((a + b).last() == b.last());
        law_sequence(a, bl, t, ins, limit);
        if let Outcome::Done(t2, rest, tr) = run(a, t, ins, limit) {
            if let Outcome::Done(t3, r3, trb) = run(bl, t2, rest, limit) {
                lemma_after_after(tr, trb, run_op(b.last(), t3, r3, limit));
            }
        }
    }
}

} // verus!
