//! Streams to which an item can be handed back.
//!
//! The item is not passed on to the underlying stream: it is kept beside it
//! and comes out before the stream goes on.

use vstd::prelude::*;

verus! {

/// A stream of items that are taken one at a time from the front.
pub trait Stream {
    type Item;

    /// The items still to come, in order.
    spec fn rest(&self) -> Seq<Self::Item>;

    /// Takes the next item, or returns `None` once the stream is at its end.
    fn next(&mut self) -> (item: Option<Self::Item>)
        ensures
            match item {
                Some(first) => {
                    &&& old(self).rest().len() > 0
                    &&& first == old(self).rest()[0]
                    &&& final(self).rest() == old(self).rest().skip(1)
                },
                None => old(self).rest().len() == 0 && final(self).rest() == old(self).rest(),
            },
    ;
}

/// A stream that allows one item at a time to be handed back.
///
/// It is not an error to hand back an item while another is still held: the
/// new item takes its place.
pub struct ReplaceOne<I: Stream> {
    iter: I,
    replaced: Option<I::Item>,
}

impl<I: Stream> ReplaceOne<I> {
    /// The item that was handed back and has not come out again, if any.
    pub closed spec fn held(&self) -> Option<I::Item> {
        self.replaced
    }

    /// The items that the underlying stream still holds.
    pub closed spec fn inner(&self) -> Seq<I::Item> {
        self.iter.rest()
    }

    /// Wraps `iter`, holding no item.
    pub fn new(iter: I) -> (stream: ReplaceOne<I>)
        ensures
            stream.held() is None,
            stream.inner() == iter.rest(),
    {
        ReplaceOne { iter: iter, replaced: None }
    }

    /// Hands `item` back, so that it is the next to come out.
    pub fn replace(&mut self, item: I::Item)
        ensures
            final(self).held() == Some(item),
            final(self).inner() == old(self).inner(),
    {
        self.replaced = Some(item);
    }
}

impl<I: Stream> Stream for ReplaceOne<I> {
    type Item = I::Item;

    open spec fn rest(&self) -> Seq<I::Item> {
        match self.held() {
            Some(item) => seq![item] + self.inner(),
            None => self.inner(),
        }
    }

    /// Gives the held item if there is one, else the next item of the
    /// underlying stream.
    fn next(&mut self) -> (item: Option<I::Item>)
        ensures
            final(self).held() is None,
            final(self).inner() == if old(self).held() is Some || old(self).inner().len() == 0 {
                old(self).inner()
            } else {
                old(self).inner().skip(1)
            },
    {
        match self.replaced.take() {
            Some(item) => {
                assert((seq![item] + self.inner()).skip(1) =~= self.inner());
                Some(item)
            },
            None => self.iter.next(),
        }
    }
}

} // verus!
