//! The pieces of data that connections deliver, as shared byte buffers of the `bytes` crate.
use bytes::Bytes;
use vstd::prelude::*;

verus! {

/// `bytes::Bytes`: an immutable, cheaply shared run of bytes.
#[verifier::external_type_specification]
#[verifier::external_body]
pub struct ExBytes(Bytes);

/// The bytes that a `bytes::Bytes` holds.
pub uninterp spec fn bytes_contents(bytes: Bytes) -> Seq<u8>;

/// `bytes::Bytes::len` returns the number of bytes held.
pub assume_specification[ Bytes::len ](bytes: &Bytes) -> (len: usize)
    ensures
        len == bytes_contents(*bytes).len(),
;

/// The bytes of all the pieces, one piece after the other.
pub open spec fn joined(pieces: Seq<Bytes>) -> Seq<u8>
    decreases pieces.len(),
{
    if pieces.len() == 0 {
        Seq::empty()
    } else {
        joined(pieces.drop_last()) + bytes_contents(pieces.last())
    }
}

/// A piece appended contributes its bytes at the end.
pub proof fn lemma_joined_push(pieces: Seq<Bytes>, piece: Bytes)
    ensures
        joined(pieces.push(piece)) == joined(pieces) + bytes_contents(piece),
{
    assert(pieces.push(piece).drop_last() =~= pieces);
}

/// The first piece contributes its bytes at the start.
pub proof fn lemma_joined_drop_first(pieces: Seq<Bytes>)
    requires
        pieces.len() > 0,
    ensures
        joined(pieces) == bytes_contents(pieces[0]) + joined(pieces.drop_first()),
    decreases pieces.len(),
{
    if pieces.len() == 1 {
        assert(pieces.drop_first() =~= Seq::<Bytes>::empty());
        assert(pieces.drop_last() =~= Seq::<Bytes>::empty());
        assert(joined(pieces) =~= bytes_contents(pieces[0]) + joined(pieces.drop_first()));
    } else {
        lemma_joined_drop_first(pieces.drop_last());
        assert(pieces.drop_first().drop_last() =~= pieces.drop_last().drop_first());
        assert(joined(pieces) =~= bytes_contents(pieces[0]) + joined(pieces.drop_first()));
    }
}

} // verus!
