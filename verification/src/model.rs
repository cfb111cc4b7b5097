//! The mathematical model of a read session.
//!
//! A source of items is seen as a sequence of [`Piece`]s, the carry buffer as a
//! sequence of bytes, and one call of `read` as the function [`step`] from a
//! state and the room in the target to what the call pulls, writes and leaves
//! behind.

use vstd::prelude::*;

verus! {

/// What one item of a source stands for.
pub enum Piece {
    /// An item that was produced successfully, as the bytes it contributes.
    Data(Seq<u8>),
    /// An item that reports a failure of the source.
    Fault,
}

/// How items of a type are moved into a target.
pub enum Shape {
    /// Every item is one byte. A read moves one item into each free slot of
    /// the target and needs no carry.
    Atomic,
    /// Every item is a run of bytes of any length. A read hands out bytes of
    /// one item only, and keeps what did not fit in the carry.
    Chunked,
}

/// The effect of one read.
pub struct ReadStep {
    /// How many items the read takes from the source.
    pub pulled: nat,
    /// The bytes the read places at the front of the target.
    pub written: Seq<u8>,
    /// The bytes the carry holds after the read.
    pub carry: Seq<u8>,
    /// Whether the read ends in a failure, that of the last item it pulled.
    pub failed: bool,
}

/// A piece that is data of length zero.
pub open spec fn is_hollow(piece: Piece) -> bool {
    piece matches Piece::Data(bytes) && bytes.len() == 0
}

/// The number of pieces before the first fault.
pub open spec fn sound_prefix(pieces: Seq<Piece>) -> nat
    decreases pieces.len(),
{
    if pieces.len() == 0 || pieces[0] is Fault {
        0
    } else {
        1 + sound_prefix(pieces.drop_first())
    }
}

/// The number of pieces before the first one that is not hollow.
pub open spec fn hollow_prefix(pieces: Seq<Piece>) -> nat
    decreases pieces.len(),
{
    if pieces.len() == 0 || !is_hollow(pieces[0]) {
        0
    } else {
        1 + hollow_prefix(pieces.drop_first())
    }
}

/// The bytes of the pieces before the first fault, in order.
pub open spec fn flatten(pieces: Seq<Piece>) -> Seq<u8>
    decreases pieces.len(),
{
    if pieces.len() == 0 {
        Seq::empty()
    } else {
        match pieces[0] {
            Piece::Data(bytes) => bytes + flatten(pieces.drop_first()),
            Piece::Fault => Seq::empty(),
        }
    }
}

/// The bytes a session still owes its reader before the source fails or
/// ends: what the carry holds, then the bytes of the sound pieces.
pub open spec fn payload(carry: Seq<u8>, pieces: Seq<Piece>) -> Seq<u8> {
    carry + flatten(pieces)
}

/// Whether neither the carry nor the source has anything left.
pub open spec fn exhausted(carry: Seq<u8>, pieces: Seq<Piece>) -> bool {
    carry.len() == 0 && pieces.len() == 0
}

/// Whether every data piece is a single byte.
pub open spec fn all_single(pieces: Seq<Piece>) -> bool {
    forall|i: int|
        0 <= i < pieces.len() ==> (#[trigger] pieces[i] matches Piece::Data(bytes) ==> bytes.len()
            == 1)
}

/// The smaller of a length and the room that is left.
pub open spec fn fitting(len: nat, room: nat) -> nat {
    if len <= room {
        len
    } else {
        room
    }
}

/// One read of atomic items into a target with `room` slots.
///
/// Items are pulled one per slot until the slots or the source run out. A
/// fault met before the slots are used up ends the read in a failure; the
/// bytes of the items before it have been written by then.
pub open spec fn atomic_step(pieces: Seq<Piece>, room: nat) -> ReadStep {
    let taken = fitting(sound_prefix(pieces), room);
    let failed = taken < room && taken < pieces.len();
    ReadStep {
        pulled: if failed {
            taken + 1
        } else {
            taken
        },
        written: flatten(pieces.take(taken as int)),
        carry: Seq::empty(),
        failed,
    }
}

/// One read of chunked items into a target with `room` slots.
///
/// A carry that holds bytes is drained first, and then nothing is pulled.
/// Otherwise hollow pieces are skipped and the first piece that is not hollow
/// is pulled: a fault ends the read in a failure, data is written as far as
/// the room allows and the rest is carried. A source that ends first gives a
/// read that writes nothing.
pub open spec fn chunked_step(carry: Seq<u8>, pieces: Seq<Piece>, room: nat) -> ReadStep {
    if carry.len() > 0 {
        let n = fitting(carry.len(), room);
        ReadStep {
            pulled: 0,
            written: carry.take(n as int),
            carry: carry.skip(n as int),
            failed: false,
        }
    } else {
        let skipped = hollow_prefix(pieces);
        if skipped == pieces.len() {
            ReadStep { pulled: skipped, written: Seq::empty(), carry: Seq::empty(), failed: false }
        } else {
            match pieces[skipped as int] {
                Piece::Fault => ReadStep {
                    pulled: skipped + 1,
                    written: Seq::empty(),
                    carry: Seq::empty(),
                    failed: true,
                },
                Piece::Data(bytes) => {
                    let n = fitting(bytes.len(), room);
                    ReadStep {
                        pulled: skipped + 1,
                        written: bytes.take(n as int),
                        carry: bytes.skip(n as int),
                        failed: false,
                    }
                },
            }
        }
    }
}

/// One read of items of the given shape.
pub open spec fn step(shape: Shape, carry: Seq<u8>, pieces: Seq<Piece>, room: nat) -> ReadStep {
    match shape {
        Shape::Atomic => atomic_step(pieces, room),
        Shape::Chunked => chunked_step(carry, pieces, room),
    }
}

/// `sound_prefix` is the index of the first fault, or the length where there
/// is none.
pub proof fn lemma_sound_prefix(pieces: Seq<Piece>)
    ensures
        sound_prefix(pieces) <= pieces.len(),
        forall|i: int| 0 <= i < sound_prefix(pieces) ==> #[trigger] pieces[i] is Data,
        sound_prefix(pieces) < pieces.len() ==> pieces[sound_prefix(pieces) as int] is Fault,
    decreases pieces.len(),
{
    if pieces.len() > 0 && pieces[0] is Data {
        let rest = pieces.drop_first();
        lemma_sound_prefix(rest);
        assert forall|i: int| 0 <= i < sound_prefix(pieces) implies #[trigger] pieces[i] is Data by {
            if i > 0 {
                assert(pieces[i] == rest[i - 1]);
            }
        }
        if sound_prefix(pieces) < pieces.len() {
            assert(pieces[sound_prefix(pieces) as int] == rest[sound_prefix(rest) as int]);
        }
    }
}

/// An index before which every piece is data, and at which the pieces end or
/// hold a fault, is `sound_prefix`.
pub proof fn lemma_sound_prefix_is(pieces: Seq<Piece>, k: int)
    requires
        0 <= k <= pieces.len(),
        forall|i: int| 0 <= i < k ==> #[trigger] pieces[i] is Data,
        k < pieces.len() ==> pieces[k] is Fault,
    ensures
        sound_prefix(pieces) == k,
    decreases pieces.len(),
{
    if k > 0 {
        let rest = pieces.drop_first();
        assert(pieces[0] is Data);
        assert forall|i: int| 0 <= i < k - 1 implies #[trigger] rest[i] is Data by {
            assert(rest[i] == pieces[i + 1]);
        }
        lemma_sound_prefix_is(rest, k - 1);
    }
}

/// `hollow_prefix` is the index of the first piece that is not hollow, or the
/// length where there is none.
pub proof fn lemma_hollow_prefix(pieces: Seq<Piece>)
    ensures
        hollow_prefix(pieces) <= pieces.len(),
        forall|i: int| 0 <= i < hollow_prefix(pieces) ==> is_hollow(#[trigger] pieces[i]),
        hollow_prefix(pieces) < pieces.len() ==> !is_hollow(pieces[hollow_prefix(pieces) as int]),
    decreases pieces.len(),
{
    if pieces.len() > 0 && is_hollow(pieces[0]) {
        let rest = pieces.drop_first();
        lemma_hollow_prefix(rest);
        assert forall|i: int| 0 <= i < hollow_prefix(pieces) implies is_hollow(
            #[trigger] pieces[i],
        ) by {
            if i > 0 {
                assert(pieces[i] == rest[i - 1]);
            }
        }
        if hollow_prefix(pieces) < pieces.len() {
            assert(pieces[hollow_prefix(pieces) as int] == rest[hollow_prefix(rest) as int]);
        }
    }
}

/// An index before which every piece is hollow, and at which the pieces end
/// or hold a piece that is not, is `hollow_prefix`.
pub proof fn lemma_hollow_prefix_is(pieces: Seq<Piece>, k: int)
    requires
        0 <= k <= pieces.len(),
        forall|i: int| 0 <= i < k ==> is_hollow(#[trigger] pieces[i]),
        k < pieces.len() ==> !is_hollow(pieces[k]),
    ensures
        hollow_prefix(pieces) == k,
    decreases pieces.len(),
{
    if k > 0 {
        let rest = pieces.drop_first();
        assert(is_hollow(pieces[0]));
        assert forall|i: int| 0 <= i < k - 1 implies is_hollow(#[trigger] rest[i]) by {
            assert(rest[i] == pieces[i + 1]);
        }
        lemma_hollow_prefix_is(rest, k - 1);
    }
}

/// Flattening splits at any index that lies before the first fault.
pub proof fn lemma_flatten_split(pieces: Seq<Piece>, k: int)
    requires
        0 <= k <= sound_prefix(pieces),
    ensures
        k <= pieces.len(),
        flatten(pieces) == flatten(pieces.take(k)) + flatten(pieces.skip(k)),
    decreases k,
{
    lemma_sound_prefix(pieces);
    if k == 0 {
        assert(pieces.take(0) =~= Seq::<Piece>::empty());
        assert(pieces.skip(0) =~= pieces);
        assert(flatten(pieces) =~= Seq::<u8>::empty() + flatten(pieces));
    } else {
        let rest = pieces.drop_first();
        let head = pieces[0]->Data_0;
        lemma_flatten_split(rest, k - 1);
        assert(pieces.take(k).drop_first() =~= rest.take(k - 1));
        assert(pieces.skip(k) =~= rest.skip(k - 1));
        assert(pieces.take(k)[0] == pieces[0]);
        assert(flatten(pieces.take(k)) == head + flatten(rest.take(k - 1)));
        assert(flatten(pieces) =~= (head + flatten(rest.take(k - 1))) + flatten(rest.skip(k - 1)));
    }
}

/// What lies behind the first fault adds nothing to the flattening.
pub proof fn lemma_flatten_stops_at_fault(pieces: Seq<Piece>)
    ensures
        flatten(pieces) == flatten(pieces.take(sound_prefix(pieces) as int)),
{
    let k = sound_prefix(pieces) as int;
    lemma_sound_prefix(pieces);
    lemma_flatten_split(pieces, k);
    if k < pieces.len() {
        assert(pieces.skip(k)[0] == pieces[k]);
    } else {
        assert(pieces.skip(k) =~= Seq::<Piece>::empty());
    }
    assert(flatten(pieces.skip(k)) =~= Seq::<u8>::empty());
    assert(flatten(pieces) =~= flatten(pieces.take(k)));
}

/// Hollow pieces add nothing to the flattening.
pub proof fn lemma_flatten_skips_hollow(pieces: Seq<Piece>, k: int)
    requires
        0 <= k <= hollow_prefix(pieces),
    ensures
        k <= pieces.len(),
        flatten(pieces) == flatten(pieces.skip(k)),
    decreases k,
{
    lemma_hollow_prefix(pieces);
    if k == 0 {
        assert(pieces.skip(0) =~= pieces);
    } else {
        let rest = pieces.drop_first();
        lemma_flatten_skips_hollow(rest, k - 1);
        assert(pieces.skip(k) =~= rest.skip(k - 1));
        assert(flatten(pieces) =~= flatten(rest));
    }
}

/// Sound single-byte pieces flatten to one byte each.
pub proof fn lemma_flatten_single(pieces: Seq<Piece>)
    requires
        all_single(pieces),
        sound_prefix(pieces) == pieces.len(),
    ensures
        flatten(pieces).len() == pieces.len(),
        forall|i: int|
            0 <= i < pieces.len() ==> #[trigger] flatten(pieces)[i] == pieces[i]->Data_0[0],
    decreases pieces.len(),
{
    if pieces.len() > 0 {
        let rest = pieces.drop_first();
        lemma_sound_prefix(pieces);
        assert(pieces[0] is Data);
        assert forall|i: int| 0 <= i < rest.len() implies (#[trigger] rest[i] matches Piece::Data(
            bytes,
        ) ==> bytes.len() == 1) by {
            assert(rest[i] == pieces[i + 1]);
        }
        lemma_flatten_single(rest);
        assert forall|i: int| 0 <= i < pieces.len() implies #[trigger] flatten(pieces)[i]
            == pieces[i]->Data_0[0] by {
            if i > 0 {
                assert(flatten(pieces)[i] == flatten(rest)[i - 1]);
                assert(rest[i - 1] == pieces[i]);
            }
        }
    }
}

} // verus!
