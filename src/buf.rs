//! A cursor over borrowed bytes that only moves forward.
use vstd::prelude::*;

verus! {

/// A position-tracked cursor over borrowed bytes.
#[derive(Debug, PartialEq, Clone, Copy, Hash)]
pub struct Buffer<'s> {
    data: &'s [u8],
    /// How far along the cursor is in `data`.
    position: usize,
}

impl<'s> Buffer<'s> {
    /// All the bytes under the cursor.
    pub closed spec fn bytes(&self) -> Seq<u8> {
        self.data@
    }

    /// How many bytes have been consumed.
    pub closed spec fn pos(&self) -> nat {
        self.position as nat
    }

    /// The position never passes the end.
    pub open spec fn wf(&self) -> bool {
        self.pos() <= self.bytes().len() <= usize::MAX
    }

    /// The bytes not consumed yet.
    pub open spec fn rest(&self) -> Seq<u8> {
        self.bytes().subrange(self.pos() as int, self.bytes().len() as int)
    }

    pub fn new(data: &'s [u8]) -> (r: Self)
        ensures
            r.wf(),
            r.bytes() == data@,
            r.pos() == 0,
    {
        proof {
            assert(data.len() == data@.len());
        }
        Buffer { data, position: 0 }
    }

    /// The bytes from the position to the end.
    pub fn available(&self) -> (r: &'s [u8])
        requires
            self.wf(),
        ensures
            r@ == self.rest(),
    {
        vstd::slice::slice_subrange(self.data, self.position, self.data.len())
    }

    /// The bytes before the position.
    pub fn consumed(&self) -> (r: &'s [u8])
        requires
            self.wf(),
        ensures
            r@ == self.bytes().subrange(0, self.pos() as int),
    {
        vstd::slice::slice_subrange(self.data, 0, self.position)
    }

    /// The next `count` bytes, or `None` where fewer remain.
    pub fn peek(&self, count: usize) -> (r: Option<&'s [u8]>)
        requires
            self.wf(),
        ensures
            r is Some <==> self.pos() + count <= self.bytes().len(),
            r is Some ==> r->0@ == self.bytes().subrange(
                self.pos() as int,
                self.pos() + count,
            ),
    {
        if count <= self.data.len() - self.position {
            Some(vstd::slice::slice_subrange(self.data, self.position, self.position + count))
        } else {
            None
        }
    }

    /// The next `count` bytes, which are then consumed; `None`, with nothing
    /// consumed, where fewer remain.
    pub fn consume(&mut self, count: usize) -> (r: Option<&'s [u8]>)
        requires
            old(self).wf(),
        ensures
            final(self).wf(),
            final(self).bytes() == old(self).bytes(),
            r is Some <==> old(self).pos() + count <= old(self).bytes().len(),
            r is Some ==> r->0@ == old(self).bytes().subrange(
                old(self).pos() as int,
                old(self).pos() + count,
            ) && final(self).pos() == old(self).pos() + count,
            r is None ==> final(self).pos() == old(self).pos(),
    {
        let slice = self.peek(count);
        if slice.is_some() {
            self.position = self.position + count;
        }
        slice
    }

    /// The next `LEN` bytes, or `None` where fewer remain.
    pub fn peek_arr<const LEN: usize>(&self) -> (r: Option<&'s [u8]>)
        requires
            self.wf(),
        ensures
            r is Some <==> self.pos() + LEN <= self.bytes().len(),
            r is Some ==> r->0@ == self.bytes().subrange(self.pos() as int, self.pos() + LEN),
    {
        self.peek(LEN)
    }

    /// The next `LEN` bytes, which are then consumed; `None`, with nothing
    /// consumed, where fewer remain.
    pub fn consume_arr<const LEN: usize>(&mut self) -> (r: Option<&'s [u8]>)
        requires
            old(self).wf(),
        ensures
            final(self).wf(),
            final(self).bytes() == old(self).bytes(),
            r is Some <==> old(self).pos() + LEN <= old(self).bytes().len(),
            r is Some ==> r->0@ == old(self).bytes().subrange(
                old(self).pos() as int,
                old(self).pos() + LEN,
            ) && final(self).pos() == old(self).pos() + LEN,
            r is None ==> final(self).pos() == old(self).pos(),
    {
        let arr = self.peek_arr::<LEN>();
        if arr.is_some() {
            self.position = self.position + LEN;
        }
        arr
    }
}

} // verus!
