use vstd::prelude::*;

verus! {

/// One call across the I/O boundary: a byte returned by the read callback,
/// or a byte handed to the write callback.
#[derive(Clone, Copy, Debug, PartialEq, Eq, Structural)]
pub enum Event {
    In(u8),
    Out(u8),
}

/// The read and write callbacks of an execution, with the log of every call
/// made through them, in order.
pub struct Callbacks<R, W> {
    read: R,
    write: W,
    log: Ghost<Seq<Event>>,
}

impl<R: Fn() -> u8, W: Fn(u8)> Callbacks<R, W> {
    /// Every call made so far, in order.
    pub closed spec fn events(&self) -> Seq<Event> {
        self.log@
    }

    /// Both callbacks accept every call.
    pub closed spec fn ready(&self) -> bool {
        self.read.requires(()) && forall|b: u8| self.write.requires((b,))
    }

    /// `b` is a byte that the read callback may return.
    pub closed spec fn may_give(&self, b: u8) -> bool {
        self.read.ensures((), b)
    }

    pub fn new(read: R, write: W) -> (r: Self)
        requires
            read.requires(()),
            forall|b: u8| write.requires((b,)),
        ensures
            r.events() == Seq::<Event>::empty(),
            r.ready(),
            forall|b: u8| r.may_give(b) == read.ensures((), b),
    {
        Callbacks { read, write, log: Ghost(Seq::empty()) }
    }

    /// Calls the read callback once.
    pub fn read(&mut self) -> (r: u8)
        requires
            old(self).ready(),
        ensures
            final(self).events() == old(self).events().push(Event::In(r)),
            final(self).ready(),
            old(self).may_give(r),
            forall|b: u8| final(self).may_give(b) == old(self).may_give(b),
    {
        let v = (self.read)();
        self.log = Ghost(self.log@.push(Event::In(v)));
        v
    }

    /// Calls the write callback once, with `b`.
    pub fn write(&mut self, b: u8)
        requires
            old(self).ready(),
        ensures
            final(self).events() == old(self).events().push(Event::Out(b)),
            final(self).ready(),
            forall|c: u8| final(self).may_give(c) == old(self).may_give(c),
    {
        (self.write)(b);
        self.log = Ghost(self.log@.push(Event::Out(b)));
    }
}

} // verus!
