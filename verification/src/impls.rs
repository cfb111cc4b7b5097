//! The item types that `IterRead` accepts, and the carry they need.
//!
//! Chunked items are the types with a [`Chunk`] impl: byte slices, vectors
//! and arrays of bytes, strings and string slices, owned or borrowed. Atomic
//! items are `u8` and `&u8`. Each of them may also stand in the `Ok` of a
//! `Result` whose error converts into `std::io::Error`.

use vstd::prelude::*;
use vstd::std_specs::convert::FromSpec;
use vstd::std_specs::iter::IteratorSpec;
use vstd::utf8::encode_utf8;
use crate::model::{
    all_single, atomic_step, fitting, flatten, is_hollow, lemma_flatten_single,
    lemma_hollow_prefix_is, lemma_sound_prefix, lemma_sound_prefix_is, sound_prefix, Piece,
    Shape,
};
use crate::{winds_down, IterReadItem};

verus! {

/// A run of bytes that a carry can hold on to: a borrowed slice, a vector or
/// an array.
pub trait ByteStore: Sized {
    /// The bytes in the store.
    spec fn contents(&self) -> Seq<u8>;

    /// The bytes in the store, as a slice.
    fn as_bytes(&self) -> (bytes: &[u8])
        ensures
            bytes@ == self.contents(),
    ;

    /// The store that a carry holds while it has no item: one without bytes
    /// where the type has such a value, else one of zeroes.
    fn blank() -> (store: Self)
        ensures
            forall|i: int| 0 <= i < store.contents().len() ==> store.contents()[i] == 0,
    ;
}

impl<'a> ByteStore for &'a [u8] {
    open spec fn contents(&self) -> Seq<u8> {
        self@
    }

    fn as_bytes(&self) -> (bytes: &[u8]) {
        *self
    }

    fn blank() -> (store: Self)
        ensures
            store@.len() == 0,
    {
        &[]
    }
}

impl ByteStore for Vec<u8> {
    open spec fn contents(&self) -> Seq<u8> {
        self@
    }

    fn as_bytes(&self) -> (bytes: &[u8]) {
        self.as_slice()
    }

    fn blank() -> (store: Self)
        ensures
            store@.len() == 0,
    {
        Vec::new()
    }
}

impl<const N: usize> ByteStore for [u8; N] {
    open spec fn contents(&self) -> Seq<u8> {
        self@
    }

    fn as_bytes(&self) -> (bytes: &[u8]) {
        self.as_slice()
    }

    fn blank() -> (store: Self)
        ensures
            store@.len() == N,
    {
        [0; N]
    }
}

/// The carry of chunked items: the bytes of the item that was pulled last,
/// and how many of them have been handed out.
pub struct Buf<T: ByteStore> {
    bytes: T,
    consumed: usize,
}

impl<T: ByteStore> Buf<T> {
    #[verifier::type_invariant]
    spec fn within_bounds(self) -> bool {
        self.consumed <= self.bytes.contents().len()
    }

    /// The bytes that have not been handed out yet.
    pub closed spec fn pending(&self) -> Seq<u8> {
        self.bytes.contents().skip(self.consumed as int)
    }

    /// A carry that holds all of `bytes`.
    pub(crate) fn holding(bytes: T) -> (buf: Self)
        ensures
            buf.pending() == bytes.contents(),
    {
        Buf { bytes, consumed: 0 }
    }

    /// Whether every byte has been handed out.
    pub(crate) fn is_drained(&self) -> (drained: bool)
        ensures
            drained == (self.pending().len() == 0),
    {
        proof {
            use_type_invariant(self);
        }
        self.consumed == self.bytes.as_bytes().len()
    }

    /// Hands out pending bytes into the front of `target`, as many as fit, and
    /// returns their number.
    pub(crate) fn drain_into(&mut self, target: &mut [u8]) -> (n: usize)
        ensures
            n == fitting(old(self).pending().len(), old(target)@.len()),
            final(target)@ == old(self).pending().take(n as int) + old(target)@.skip(n as int),
            final(self).pending() == old(self).pending().skip(n as int),
    {
        proof {
            use_type_invariant(&*self);
        }
        let src = self.bytes.as_bytes();
        let start: usize = self.consumed;
        let left: usize = src.len() - start;
        let mut len: usize = 0;
        while len < target.len() && len < left
            invariant
                start + left == src@.len(),
                start + left <= usize::MAX,
                len <= left,
                len <= target@.len(),
                target@.len() == old(target)@.len(),
                forall|i: int| 0 <= i < len ==> target@[i] == src@[start + i],
                forall|i: int| len <= i < target@.len() ==> target@[i] == old(target)@[i],
            decreases target@.len() - len,
        {
            target[len] = src[start + len];
            len += 1;
        }
        proof {
            assert(target@ =~= old(self).pending().take(len as int) + old(target)@.skip(
                len as int,
            ));
            assert(self.bytes.contents().skip(start + len) =~= old(self).pending().skip(
                len as int,
            ));
        }
        self.consumed = start + len;
        len
    }
}

impl<T: ByteStore> Default for Buf<T> {
    /// A carry with nothing pending.
    fn default() -> (buf: Self)
        ensures
            buf.pending().len() == 0,
    {
        let bytes = T::blank();
        let consumed: usize = bytes.as_bytes().len();
        Buf { bytes, consumed }
    }
}

/// Whether `error` can be what the failure `cause` of a source is converted
/// into. Where the conversion from `E` is known to obey its model, `error` is
/// the value that the model gives; of any other conversion nothing is known.
pub open spec fn converts_to<E>(cause: E, error: std::io::Error) -> bool where
    std::io::Error: From<E>,
{
    let obeys = <std::io::Error as FromSpec<E>>::obeys_from_spec();
    let model = <std::io::Error as FromSpec<E>>::from_spec(cause);
    obeys ==> error == model
}

/// An item that is a run of bytes: it can be turned into a store that a
/// carry holds while the bytes are handed out.
pub trait Chunk: Sized {
    /// The store that holds the bytes of an item.
    type Store: ByteStore;

    /// The bytes of the item.
    spec fn byte_view(&self) -> Seq<u8>;

    /// Turns the item into the store of its bytes.
    fn into_store(self) -> (store: Self::Store)
        ensures
            store.contents() == self.byte_view(),
    ;
}

impl<'a> Chunk for &'a [u8] {
    type Store = &'a [u8];

    open spec fn byte_view(&self) -> Seq<u8> {
        self@
    }

    fn into_store(self) -> (store: Self::Store) {
        self
    }
}

impl<'a> Chunk for &'a Vec<u8> {
    type Store = &'a [u8];

    open spec fn byte_view(&self) -> Seq<u8> {
        self@
    }

    fn into_store(self) -> (store: Self::Store) {
        self.as_slice()
    }
}

impl Chunk for Vec<u8> {
    type Store = Vec<u8>;

    open spec fn byte_view(&self) -> Seq<u8> {
        self@
    }

    fn into_store(self) -> (store: Self::Store) {
        self
    }
}

impl<const N: usize> Chunk for [u8; N] {
    type Store = [u8; N];

    open spec fn byte_view(&self) -> Seq<u8> {
        self@
    }

    fn into_store(self) -> (store: Self::Store) {
        self
    }
}

impl<'a, const N: usize> Chunk for &'a [u8; N] {
    type Store = &'a [u8];

    open spec fn byte_view(&self) -> Seq<u8> {
        self@
    }

    fn into_store(self) -> (store: Self::Store) {
        self.as_slice()
    }
}

impl<'a> Chunk for &'a str {
    type Store = &'a [u8];

    open spec fn byte_view(&self) -> Seq<u8> {
        encode_utf8(self@)
    }

    fn into_store(self) -> (store: Self::Store) {
        self.as_bytes()
    }
}

impl<'a> Chunk for &'a String {
    type Store = &'a [u8];

    open spec fn byte_view(&self) -> Seq<u8> {
        encode_utf8(self@)
    }

    fn into_store(self) -> (store: Self::Store) {
        self.as_str().as_bytes()
    }
}

impl Chunk for String {
    type Store = Vec<u8>;

    open spec fn byte_view(&self) -> Seq<u8> {
        encode_utf8(self@)
    }

    fn into_store(self) -> (store: Self::Store) {
        self.into_bytes()
    }
}

/// What the loops over chunked items have done after pulling `pulled`
/// items: if none, the carry is as it was; else the carry was empty, the
/// items before the last one were hollow, and the carry holds the last one.
spec fn loaded(pieces: Seq<Piece>, before: Seq<u8>, now: Seq<u8>, pulled: int) -> bool {
    &&& 0 <= pulled <= pieces.len()
    &&& pulled == 0 ==> now == before
    &&& pulled > 0 ==> before.len() == 0 && pieces[pulled - 1] == Piece::Data(now)
    &&& forall|j: int| 0 <= j < pulled - 1 ==> is_hollow(#[trigger] pieces[j])
}

/// Chunked items that cannot fail.
impl<T: Chunk> IterReadItem for T {
    type Buffer = Buf<T::Store>;

    open spec fn shape() -> Shape {
        Shape::Chunked
    }

    open spec fn piece(&self) -> Piece {
        Piece::Data(self.byte_view())
    }

    open spec fn surfaces_as(&self, error: std::io::Error) -> bool {
        false
    }

    open spec fn carried(buf: &Self::Buffer) -> Seq<u8> {
        buf.pending()
    }

    fn fresh() -> (buf: Self::Buffer) {
        Buf::default()
    }

    fn read<I: Iterator<Item = Self>>(
        target: &mut [u8],
        it: &mut I,
        buf: &mut Self::Buffer,
    ) -> (res: std::io::Result<usize>) {
        let ghost items = (*old(it)).remaining();
        let ghost pieces = items.map_values(|item: Self| item.piece());
        let ghost mut pulled: int = 0;
        while buf.is_drained()
            invariant
                winds_down(it),
                items == (*old(it)).remaining(),
                pieces == items.map_values(|item: Self| item.piece()),
                (*it).remaining() == items.skip(pulled),
                target@ == old(target)@,
                loaded(pieces, old(buf).pending(), buf.pending(), pulled),
            decreases (*it).decrease()->0,
        {
            match it.next() {
                Some(item) => {
                    *buf = Buf::holding(item.into_store());
                    proof {
                        pulled = pulled + 1;
                    }
                },
                None => {
                    *buf = Buf::default();
                    proof {
                        lemma_hollow_prefix_is(pieces, pulled);
                    }
                    return Ok(0);
                },
            }
        }
        proof {
            if pulled > 0 {
                lemma_hollow_prefix_is(pieces, pulled - 1);
            }
        }
        let n = buf.drain_into(target);
        Ok(n)
    }
}

/// Chunked items that can fail. A failure empties the carry and is returned
/// at once, converted into `std::io::Error`.
impl<T: Chunk, E> IterReadItem for Result<T, E> where std::io::Error: From<E> {
    type Buffer = Buf<T::Store>;

    open spec fn shape() -> Shape {
        Shape::Chunked
    }

    open spec fn piece(&self) -> Piece {
        match self {
            Ok(item) => Piece::Data(item.byte_view()),
            Err(_) => Piece::Fault,
        }
    }

    open spec fn surfaces_as(&self, error: std::io::Error) -> bool {
        self matches Err(cause) && converts_to(*cause, error)
    }

    open spec fn carried(buf: &Self::Buffer) -> Seq<u8> {
        buf.pending()
    }

    fn fresh() -> (buf: Self::Buffer) {
        Buf::default()
    }

    fn read<I: Iterator<Item = Self>>(
        target: &mut [u8],
        it: &mut I,
        buf: &mut Self::Buffer,
    ) -> (res: std::io::Result<usize>) {
        let ghost items = (*old(it)).remaining();
        let ghost pieces = items.map_values(|item: Self| item.piece());
        let ghost mut pulled: int = 0;
        while buf.is_drained()
            invariant
                winds_down(it),
                items == (*old(it)).remaining(),
                pieces == items.map_values(|item: Self| item.piece()),
                (*it).remaining() == items.skip(pulled),
                target@ == old(target)@,
                loaded(pieces, old(buf).pending(), buf.pending(), pulled),
            decreases (*it).decrease()->0,
        {
            match it.next() {
                Some(Ok(item)) => {
                    *buf = Buf::holding(item.into_store());
                    proof {
                        pulled = pulled + 1;
                    }
                },
                Some(Err(cause)) => {
                    *buf = Buf::default();
                    proof {
                        lemma_hollow_prefix_is(pieces, pulled);
                    }
                    return Err(std::io::Error::from(cause));
                },
                None => {
                    *buf = Buf::default();
                    proof {
                        lemma_hollow_prefix_is(pieces, pulled);
                    }
                    return Ok(0);
                },
            }
        }
        proof {
            if pulled > 0 {
                lemma_hollow_prefix_is(pieces, pulled - 1);
            }
        }
        let n = buf.drain_into(target);
        Ok(n)
    }
}

/// An item that is a single byte, owned or borrowed.
trait Byte: Sized {
    /// The byte.
    spec fn value(&self) -> u8;

    /// The byte.
    fn get(self) -> (byte: u8)
        ensures
            byte == self.value(),
    ;
}

impl Byte for u8 {
    spec fn value(&self) -> u8 {
        *self
    }

    fn get(self) -> (byte: u8) {
        self
    }
}

impl<'a> Byte for &'a u8 {
    spec fn value(&self) -> u8 {
        **self
    }

    fn get(self) -> (byte: u8) {
        *self
    }
}

/// The piece that a byte stands for.
spec fn byte_piece<B: Byte>(item: B) -> Piece {
    Piece::Data(seq![item.value()])
}

/// The piece that a byte or the failure in its place stands for.
spec fn fallible_byte_piece<B: Byte, E>(item: Result<B, E>) -> Piece {
    match item {
        Ok(byte) => Piece::Data(seq![byte.value()]),
        Err(_) => Piece::Fault,
    }
}

/// What the loops over atomic items have done after `len` rounds: they
/// pulled the first `len` items, which are bytes, and wrote them to the
/// first `len` slots of the target.
spec fn filled(pieces: Seq<Piece>, before: Seq<u8>, now: Seq<u8>, len: int) -> bool {
    &&& 0 <= len <= pieces.len()
    &&& len <= now.len() == before.len()
    &&& all_single(pieces)
    &&& forall|j: int| 0 <= j < len ==> #[trigger] pieces[j] == Piece::Data(seq![now[j]])
    &&& forall|j: int| len <= j < now.len() ==> now[j] == before[j]
}

/// With `len` slots filled, the target holds what `atomic_step` writes for
/// `len` items, and no fault stands among them. Where the pieces end behind
/// them or go on with a fault, `len` is the number of pieces before the
/// first fault.
proof fn lemma_filled(pieces: Seq<Piece>, before: Seq<u8>, now: Seq<u8>, len: int)
    requires
        filled(pieces, before, now, len),
    ensures
        now == flatten(pieces.take(len)) + before.skip(len),
        flatten(pieces.take(len)).len() == len,
        len <= sound_prefix(pieces),
        len == pieces.len() || pieces[len] is Fault ==> sound_prefix(pieces) == len,
{
    let taken = pieces.take(len);
    lemma_sound_prefix_is(taken, len);
    lemma_flatten_single(taken);
    assert(now =~= flatten(taken) + before.skip(len));
    lemma_sound_prefix(pieces);
    if sound_prefix(pieces) < len {
        assert(pieces[sound_prefix(pieces) as int] is Fault);
    }
    if len == pieces.len() || pieces[len] is Fault {
        lemma_sound_prefix_is(pieces, len);
    }
}

/// Reads bytes that cannot fail: one item for each slot of `target`, until
/// the slots or the items run out.
fn read_bytes<B: Byte, I: Iterator<Item = B>>(target: &mut [u8], it: &mut I) -> (len: usize)
    requires
        winds_down(old(it)),
    ensures
        winds_down(final(it)),
        ({
            let items = (*old(it)).remaining();
            let done = atomic_step(items.map_values(|item: B| byte_piece(item)), old(target)@.len());
            &&& !done.failed
            &&& len == done.written.len() <= old(target)@.len()
            &&& done.pulled <= items.len()
            &&& (*final(it)).remaining() == items.skip(done.pulled as int)
            &&& final(target)@ == done.written + old(target)@.skip(len as int)
        }),
{
    let ghost items = (*old(it)).remaining();
    let ghost pieces = items.map_values(|item: B| byte_piece(item));
    let mut len: usize = 0;
    while len < target.len()
        invariant
            winds_down(it),
            items == (*old(it)).remaining(),
            pieces == items.map_values(|item: B| byte_piece(item)),
            (*it).remaining() == items.skip(len as int),
            filled(pieces, old(target)@, target@, len as int),
        decreases target@.len() - len,
    {
        match it.next() {
            Some(item) => {
                target[len] = item.get();
                len += 1;
            },
            None => {
                proof {
                    lemma_filled(pieces, old(target)@, target@, len as int);
                }
                return len;
            },
        }
    }
    proof {
        lemma_filled(pieces, old(target)@, target@, len as int);
    }
    len
}

/// Reads bytes that can fail: one item for each slot of `target`, until the
/// slots or the items run out or an item is a failure, which is returned.
fn read_fallible_bytes<B: Byte, E, I: Iterator<Item = Result<B, E>>>(
    target: &mut [u8],
    it: &mut I,
) -> (res: std::io::Result<usize>) where std::io::Error: From<E>
    requires
        winds_down(old(it)),
    ensures
        winds_down(final(it)),
        ({
            let items = (*old(it)).remaining();
            let done = atomic_step(
                items.map_values(|item: Result<B, E>| fallible_byte_piece(item)),
                old(target)@.len(),
            );
            &&& done.written.len() <= old(target)@.len()
            &&& done.pulled <= items.len()
            &&& (*final(it)).remaining() == items.skip(done.pulled as int)
            &&& final(target)@ == done.written + old(target)@.skip(done.written.len() as int)
            &&& match res {
                Ok(n) => !done.failed && n == done.written.len(),
                Err(error) => done.failed && (items[done.pulled - 1] matches Err(cause)
                    && converts_to(cause, error)),
            }
        }),
{
    let ghost items = (*old(it)).remaining();
    let ghost pieces = items.map_values(|item: Result<B, E>| fallible_byte_piece(item));
    let mut len: usize = 0;
    while len < target.len()
        invariant
            winds_down(it),
            items == (*old(it)).remaining(),
            pieces == items.map_values(|item: Result<B, E>| fallible_byte_piece(item)),
            (*it).remaining() == items.skip(len as int),
            filled(pieces, old(target)@, target@, len as int),
        decreases target@.len() - len,
    {
        match it.next() {
            Some(Ok(item)) => {
                target[len] = item.get();
                len += 1;
            },
            Some(Err(cause)) => {
                proof {
                    lemma_filled(pieces, old(target)@, target@, len as int);
                }
                return Err(std::io::Error::from(cause));
            },
            None => {
                proof {
                    lemma_filled(pieces, old(target)@, target@, len as int);
                }
                return Ok(len);
            },
        }
    }
    proof {
        lemma_filled(pieces, old(target)@, target@, len as int);
    }
    Ok(len)
}

/// Bytes.
impl IterReadItem for u8 {
    type Buffer = ();

    open spec fn shape() -> Shape {
        Shape::Atomic
    }

    open spec fn piece(&self) -> Piece {
        Piece::Data(seq![*self])
    }

    open spec fn surfaces_as(&self, error: std::io::Error) -> bool {
        false
    }

    open spec fn carried(buf: &Self::Buffer) -> Seq<u8> {
        Seq::empty()
    }

    fn fresh() -> (buf: Self::Buffer) {
    }

    fn read<I: Iterator<Item = Self>>(
        target: &mut [u8],
        it: &mut I,
        buf: &mut Self::Buffer,
    ) -> (res: std::io::Result<usize>) {
        proof {
            let items = (*old(it)).remaining();
            assert(items.map_values(|item: Self| Self::piece(&item)) =~= items.map_values(
                |item: Self| byte_piece(item),
            ));
        }
        Ok(read_bytes(target, it))
    }
}

/// Borrowed bytes.
impl<'a> IterReadItem for &'a u8 {
    type Buffer = ();

    open spec fn shape() -> Shape {
        Shape::Atomic
    }

    open spec fn piece(&self) -> Piece {
        Piece::Data(seq![**self])
    }

    open spec fn surfaces_as(&self, error: std::io::Error) -> bool {
        false
    }

    open spec fn carried(buf: &Self::Buffer) -> Seq<u8> {
        Seq::empty()
    }

    fn fresh() -> (buf: Self::Buffer) {
    }

    fn read<I: Iterator<Item = Self>>(
        target: &mut [u8],
        it: &mut I,
        buf: &mut Self::Buffer,
    ) -> (res: std::io::Result<usize>) {
        proof {
            let items = (*old(it)).remaining();
            assert(items.map_values(|item: Self| Self::piece(&item)) =~= items.map_values(
                |item: Self| byte_piece(item),
            ));
        }
        Ok(read_bytes(target, it))
    }
}

/// Bytes that can fail. A failure is returned at once, converted into
/// `std::io::Error`; the bytes that the same read has moved before it stay in
/// the target.
impl<E> IterReadItem for Result<u8, E> where std::io::Error: From<E> {
    type Buffer = ();

    open spec fn shape() -> Shape {
        Shape::Atomic
    }

    open spec fn piece(&self) -> Piece {
        match self {
            Ok(byte) => Piece::Data(seq![*byte]),
            Err(_) => Piece::Fault,
        }
    }

    open spec fn surfaces_as(&self, error: std::io::Error) -> bool {
        self matches Err(cause) && converts_to(*cause, error)
    }

    open spec fn carried(buf: &Self::Buffer) -> Seq<u8> {
        Seq::empty()
    }

    fn fresh() -> (buf: Self::Buffer) {
    }

    fn read<I: Iterator<Item = Self>>(
        target: &mut [u8],
        it: &mut I,
        buf: &mut Self::Buffer,
    ) -> (res: std::io::Result<usize>) {
        proof {
            let items = (*old(it)).remaining();
            assert(items.map_values(|item: Self| Self::piece(&item)) =~= items.map_values(
                |item: Self| fallible_byte_piece(item),
            ));
        }
        read_fallible_bytes(target, it)
    }
}

/// Borrowed bytes that can fail, read as bytes that can fail are.
impl<'a, E> IterReadItem for Result<&'a u8, E> where std::io::Error: From<E> {
    type Buffer = ();

    open spec fn shape() -> Shape {
        Shape::Atomic
    }

    open spec fn piece(&self) -> Piece {
        match self {
            Ok(byte) => Piece::Data(seq![**byte]),
            Err(_) => Piece::Fault,
        }
    }

    open spec fn surfaces_as(&self, error: std::io::Error) -> bool {
        self matches Err(cause) && converts_to(*cause, error)
    }

    open spec fn carried(buf: &Self::Buffer) -> Seq<u8> {
        Seq::empty()
    }

    fn fresh() -> (buf: Self::Buffer) {
    }

    fn read<I: Iterator<Item = Self>>(
        target: &mut [u8],
        it: &mut I,
        buf: &mut Self::Buffer,
    ) -> (res: std::io::Result<usize>) {
        proof {
            let items = (*old(it)).remaining();
            assert(items.map_values(|item: Self| Self::piece(&item)) =~= items.map_values(
                |item: Self| fallible_byte_piece(item),
            ));
        }
        read_fallible_bytes(target, it)
    }
}

} // verus!
