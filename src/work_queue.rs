//! A double-buffered queue of work: producers append to the write side while
//! the consumer drains the read side, and the two trade places once the
//! read side is empty.
use vstd::prelude::*;

verus! {

pub struct WebGLThreadQueue<W> {
    write_queue: Vec<W>,
    read_queue: Vec<W>,
}

impl<W> WebGLThreadQueue<W> {
    /// The work sent since the last swap, oldest first.
    pub closed spec fn pending(&self) -> Seq<W> {
        self.write_queue@
    }

    /// The work handed to the consumer, oldest first.
    pub closed spec fn readable(&self) -> Seq<W> {
        self.read_queue@
    }

    pub fn new() -> (r: WebGLThreadQueue<W>)
        ensures
            r.pending().len() == 0,
            r.readable().len() == 0,
    {
        WebGLThreadQueue { write_queue: Vec::new(), read_queue: Vec::new() }
    }

    /// Appends work to the write side.
    pub fn send(&mut self, work: W)
        ensures
            final(self).pending() == old(self).pending().push(work),
            final(self).readable() == old(self).readable(),
    {
        self.write_queue.push(work);
    }

    /// Hands the work sent so far to the consumer. The consumer has to have
    /// taken everything it was handed before.
    pub fn swap_buffers(&mut self)
        requires
            old(self).readable().len() == 0,
        ensures
            final(self).readable() == old(self).pending(),
            final(self).pending().len() == 0,
    {
        std::mem::swap(&mut self.write_queue, &mut self.read_queue);
    }

    /// The work handed to the consumer, to be taken from the front.
    pub fn read_queue(&mut self) -> (r: &mut Vec<W>)
        ensures
            r@ == old(self).readable(),
            final(self).readable() == final(r)@,
            final(self).pending() == old(self).pending(),
    {
        &mut self.read_queue
    }
}

} // verus!
