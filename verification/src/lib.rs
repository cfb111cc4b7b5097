//! An adapter that lets an iterator be read like a stream of bytes.
//!
//! [`IterRead`] wraps an iterator whose items are bytes, runs of bytes or text,
//! plain or wrapped in a `Result`, and implements [`std::io::Read`] on top of
//! it: every call of `read` fills the front of the caller's buffer with the
//! bytes that come next.
//!
//! What a call does is stated over the model in [`model`]: the items still to
//! come are a sequence of [`Piece`]s, the bytes kept back between two calls
//! are the carry, and [`step`] says what one call pulls, writes and carries
//! over. The module [`laws`] proves what follows for whole sessions.

use vstd::prelude::*;
use vstd::std_specs::iter::IteratorSpec;
use crate::assumed::fuse;
use crate::model::{step, Piece, Shape};

pub mod assumed;
pub mod impls;
pub mod laws;
pub mod model;

verus! {

/// Whether a source comes to an end in a way that can be relied on: it obeys
/// the laws of iterators, that is, it yields finitely many items, then `None`,
/// and `None` ever after; and it has a measure that drops with every item it
/// yields, by which a loop that pulls from it is known to end.
pub open spec fn winds_down<I: Iterator>(it: &I) -> bool {
    it.obeys_prophetic_iter_laws() && it.decrease() is Some
}

/// The pieces that a sequence of items stands for.
pub open spec fn pieces<E: IterReadItem>(items: Seq<E>) -> Seq<Piece> {
    items.map_values(|item: E| item.piece())
}

/// A type of item that an iterator given to `IterRead` may yield.
pub trait IterReadItem: Sized {
    /// The carry: what the adapter keeps of an item between two reads.
    /// It is `()` for items that need none.
    type Buffer: Default;

    /// How items of this type are moved into a target.
    spec fn shape() -> Shape;

    /// What this item stands for: its bytes, or a fault.
    spec fn piece(&self) -> Piece;

    /// Whether `error` is what a read returns when it pulls this item and the
    /// item is a fault.
    spec fn surfaces_as(&self, error: std::io::Error) -> bool;

    /// The bytes that a carry holds and has not handed out yet.
    spec fn carried(buf: &Self::Buffer) -> Seq<u8>;

    /// A carry that holds nothing, as a session starts with.
    fn fresh() -> (buf: Self::Buffer)
        ensures
            Self::carried(&buf).len() == 0,
    ;

    /// Moves the bytes that come next into the front of `target` and returns
    /// how many they are, or the failure of the item that was pulled last.
    ///
    /// `it` is the source and `buf` the carry, as the last read of the same
    /// session left it, or a fresh one. What the read pulls from the source,
    /// writes to the target and leaves in the carry is what `step` says for
    /// the shape of the items. A read may have to pull item after item until
    /// it finds one that holds bytes, so the source has to wind down.
    fn read<I: Iterator<Item = Self>>(
        target: &mut [u8],
        it: &mut I,
        buf: &mut Self::Buffer,
    ) -> (res: std::io::Result<usize>)
        requires
            winds_down(old(it)),
        ensures
            winds_down(final(it)),
            ({
                let items = (*old(it)).remaining();
                let done = step(
                    Self::shape(),
                    Self::carried(old(buf)),
                    items.map_values(|item: Self| item.piece()),
                    old(target)@.len(),
                );
                &&& done.pulled <= items.len()
                &&& (*final(it)).remaining() == items.skip(done.pulled as int)
                &&& Self::carried(final(buf)) == done.carry
                &&& done.written.len() <= old(target)@.len()
                &&& final(target)@ == done.written + old(target)@.skip(done.written.len() as int)
                &&& match res {
                    Ok(n) => !done.failed && n == done.written.len(),
                    Err(error) => done.failed && items[done.pulled - 1].surfaces_as(error),
                }
            }),
    ;
}

/// An adapter that reads the bytes of the items of an iterator.
///
/// The items may be of any type with an [`IterReadItem`] impl: `u8` and
/// `&u8`; `Vec<u8>`, `[u8; N]`, `String` and their borrowed forms, `&[u8]`
/// and `&str`; and `Result<T, E>` where `T` is one of these and `E` converts
/// into `std::io::Error`. For items other than single bytes the adapter
/// carries the bytes of an item that did not fit into the caller's buffer
/// over to the next read.
#[verifier::reject_recursive_types(E)]
#[verifier::reject_recursive_types(I)]
pub struct IterRead<E: IterReadItem, I: Iterator<Item = E>> {
    iter: std::iter::Fuse<I>,
    buf: E::Buffer,
}

impl<E: IterReadItem, I: Iterator<Item = E>> IterRead<E, I> {
    /// The fused source that the adapter pulls from.
    pub closed spec fn source(&self) -> std::iter::Fuse<I> {
        self.iter
    }

    /// Whether the adapter can be read from: its source winds down.
    pub open spec fn well_formed(&self) -> bool {
        winds_down(&self.source())
    }

    /// The bytes that the adapter has pulled and not handed out yet.
    pub closed spec fn carried(&self) -> Seq<u8> {
        E::carried(&self.buf)
    }

    /// Creates an adapter that reads from `iter`, with nothing carried. If
    /// `iter` winds down, the adapter can be read from and will yield the
    /// items of `iter`.
    pub fn new(iter: I) -> (reader: IterRead<E, I>)
        ensures
            reader.carried().len() == 0,
            winds_down(&iter) ==> reader.well_formed() && reader.source().remaining()
                == iter.remaining(),
    {
        IterRead { iter: fuse(iter), buf: E::fresh() }
    }

    /// Gives back the fused source. Bytes that are carried are lost.
    pub fn into_inner(self) -> (iter: std::iter::Fuse<I>)
        ensures
            iter == self.source(),
    {
        self.iter
    }
}

impl<E: IterReadItem, I: Iterator<Item = E>> std::io::Read for IterRead<E, I> {
    /// Moves the bytes that come next into the front of `buf` and returns how
    /// many they are, or the failure of the item that was pulled last.
    ///
    /// A read may have to pull item after item until it finds one that holds
    /// bytes. It is known to return for an adapter that is well formed, as
    /// `new` makes it for a source that winds down.
    fn read(&mut self, buf: &mut [u8]) -> (res: std::io::Result<usize>)
        requires
            old(self).well_formed(),
        ensures
            final(self).well_formed(),
            ({
                let items = old(self).source().remaining();
                let done = step(E::shape(), old(self).carried(), pieces(items), old(buf)@.len());
                &&& done.pulled <= items.len()
                &&& final(self).source().remaining() == items.skip(done.pulled as int)
                &&& final(self).carried() == done.carry
                &&& done.written.len() <= old(buf)@.len()
                &&& final(buf)@ == done.written + old(buf)@.skip(done.written.len() as int)
                &&& match res {
                    Ok(n) => !done.failed && n == done.written.len(),
                    Err(error) => done.failed && items[done.pulled - 1].surfaces_as(error),
                }
            }),
    {
        proof {
            let items = self.iter.remaining();
            assert(pieces(items) =~= items.map_values(|item: E| item.piece()));
        }
        E::read(buf, &mut self.iter, &mut self.buf)
    }
}

} // verus!
