//! Endorsements carried by a block header.

use vstd::prelude::*;
use vstd::slice::*;
use crate::block_id::BlockId;
use crate::codec::{read32, read64, write_bytes, Parsed};
use crate::error::ModelsError;
use crate::serialization::{
    lemma_varint_decode_encode,
    lemma_varint_encode_decode,
    spec_u32_from_varint_bounded,
    u32_from_varint_bounded,
    u64_to_varint,
    varint_decode,
    varint_encode,
};
use crate::signature::{xonly_public_key_accepted, PublicKey, Signature};
use crate::slot::{lemma_slot_bytes_parse, lemma_slot_parse_bytes, Slot};

verus! {

/// What an endorsement says.
#[derive(Clone, Copy, Debug)]
pub struct EndorsementContent {
    /// Key of the endorser.
    pub sender_public_key: PublicKey,
    /// Slot of the endorsed block.
    pub slot: Slot,
    /// Index of the endorsement within the block.
    pub index: u32,
    /// The endorsed block.
    pub endorsed_block: BlockId,
}

/// An endorsement, signed by the endorser.
#[derive(Clone, Copy, Debug)]
pub struct Endorsement {
    pub content: EndorsementContent,
    pub signature: Signature,
}

/// An endorsement as plain values.
pub struct EndorsementView {
    pub sender_public_key: Seq<u8>,
    pub slot: Slot,
    pub index: u32,
    pub endorsed_block: Seq<u8>,
    pub signature: Seq<u8>,
}

impl View for Endorsement {
    type V = EndorsementView;

    open spec fn view(&self) -> EndorsementView {
        EndorsementView {
            sender_public_key: self.content.sender_public_key@,
            slot: self.content.slot,
            index: self.content.index,
            endorsed_block: self.content.endorsed_block@,
            signature: self.signature@,
        }
    }
}

/// Whether an endorsement can be read back: its fields have their sizes, its key is
/// an accepted key, and its thread is in range.
pub open spec fn endorsement_valid(e: EndorsementView, thread_count: u8) -> bool {
    &&& e.sender_public_key.len() == 32
    &&& xonly_public_key_accepted(e.sender_public_key)
    &&& e.slot.thread < thread_count
    &&& e.endorsed_block.len() == 32
    &&& e.signature.len() == 64
}

/// The bytes of an endorsement: the endorser's key, the slot, the index as a
/// variable-length integer, the endorsed block, the signature.
pub open spec fn endorsement_bytes(e: EndorsementView) -> Seq<u8> {
    e.sender_public_key + e.slot.spec_bytes() + varint_encode(e.index as nat) + e.endorsed_block
        + e.signature
}

/// What reading an endorsement from the start of `s` gives.
pub open spec fn parse_endorsement(s: Seq<u8>, thread_count: u8) -> Parsed<EndorsementView> {
    if s.len() < 32 {
        Err(ModelsError::BufferError)
    } else if !xonly_public_key_accepted(s.subrange(0, 32)) {
        Err(ModelsError::InvalidPublicKey)
    } else {
        match Slot::spec_parse(s.subrange(32, s.len() as int), thread_count) {
            Err(e) => Err(e),
            Ok(slot) => match spec_u32_from_varint_bounded(
                s.subrange(41, s.len() as int),
                u32::MAX,
            ) {
                Err(e) => Err(e),
                Ok((index, n)) => if s.len() < 41 + n + 96 {
                    Err(ModelsError::BufferError)
                } else {
                    Ok(
                        (
                            EndorsementView {
                                sender_public_key: s.subrange(0, 32),
                                slot,
                                index,
                                endorsed_block: s.subrange(41 + n as int, 41 + n + 32 as int),
                                signature: s.subrange(41 + n + 32 as int, 41 + n + 96 as int),
                            },
                            (41 + n + 96) as nat,
                        ),
                    )
                },
            },
        }
    }
}

/// Reading the bytes of a valid endorsement gives it back, whatever follows.
pub proof fn lemma_parse_endorsement_bytes(e: EndorsementView, thread_count: u8, rest: Seq<u8>)
    requires
        endorsement_valid(e, thread_count),
    ensures
        parse_endorsement(endorsement_bytes(e) + rest, thread_count) == Ok::<_, ModelsError>(
            (e, endorsement_bytes(e).len()),
        ),
{
    let idx = varint_encode(e.index as nat);
    let s = endorsement_bytes(e) + rest;
    let tail = e.endorsed_block + e.signature + rest;
    lemma_slot_parse_bytes(e.slot, thread_count, idx + tail);
    lemma_varint_decode_encode(e.index as nat, tail);
    assert(s.subrange(0, 32) =~= e.sender_public_key);
    assert(s.subrange(32, s.len() as int) =~= e.slot.spec_bytes() + (idx + tail));
    assert(s.subrange(41, s.len() as int) =~= idx + tail);
    let n = idx.len();
    assert(s.subrange(41 + n as int, 41 + n + 32 as int) =~= e.endorsed_block);
    assert(s.subrange(41 + n + 32 as int, 41 + n + 96 as int) =~= e.signature);
}

/// An endorsement that was read is valid, and is written back as the bytes it was
/// read from.
pub proof fn lemma_endorsement_bytes_parse(s: Seq<u8>, thread_count: u8)
    ensures
        parse_endorsement(s, thread_count) matches Ok((e, n)) ==> n <= s.len()
            && endorsement_valid(e, thread_count) && endorsement_bytes(e) == s.subrange(
            0,
            n as int,
        ),
{
    if let Ok((e, total)) = parse_endorsement(s, thread_count) {
        let t = s.subrange(32, s.len() as int);
        lemma_slot_bytes_parse(t, thread_count);
        let u = s.subrange(41, s.len() as int);
        lemma_varint_encode_decode(u);
        let n = varint_decode(u).unwrap().1;
        assert(t.subrange(0, 9) =~= s.subrange(32, 41));
        assert(u.subrange(0, n as int) =~= s.subrange(41, 41 + n as int));
        assert(endorsement_bytes(e) =~= s.subrange(0, total as int));
    }
}

impl Endorsement {
    /// Appends the bytes of the endorsement to `buffer`.
    pub fn write_compact(&self, buffer: &mut Vec<u8>)
        ensures
            final(buffer)@ == old(buffer)@ + endorsement_bytes(self@),
            self@.sender_public_key.len() == 32,
            xonly_public_key_accepted(self@.sender_public_key),
            self@.endorsed_block.len() == 32,
            self@.signature.len() == 64,
    {
        let key = self.content.sender_public_key.to_bytes();
        write_bytes(key.as_slice(), buffer);
        self.content.slot.write_bytes(buffer);
        u64_to_varint(self.content.index as u64, buffer);
        let id = self.content.endorsed_block.to_bytes();
        write_bytes(id.as_slice(), buffer);
        write_bytes(self.signature.to_bytes().as_slice(), buffer);
        assert(buffer@ =~= old(buffer)@ + endorsement_bytes(self@));
    }

    /// The bytes of the endorsement.
    pub fn to_bytes_compact(&self) -> (r: Result<Vec<u8>, ModelsError>)
        ensures
            r is Ok,
            r.unwrap()@ == endorsement_bytes(self@),
    {
        let mut out: Vec<u8> = Vec::new();
        self.write_compact(&mut out);
        assert(out@ =~= endorsement_bytes(self@));
        Ok(out)
    }

    /// Reads an endorsement from the start of `buffer`: the endorsement, and the
    /// number of bytes it takes.
    pub fn from_bytes_compact(buffer: &[u8], thread_count: u8) -> (r: Result<
        (Endorsement, usize),
        ModelsError,
    >)
        ensures
            match parse_endorsement(buffer@, thread_count) {
                Ok((e, n)) => r is Ok && r.unwrap().0@ == e && r.unwrap().1 == n
                    && n <= buffer@.len(),
                Err(e) => r == Err::<(Endorsement, usize), _>(e),
            },
    {
        let len = buffer.len();
        let key = match read32(buffer, 0) {
            Ok(k) => k,
            Err(e) => { return Err(e); },
        };
        let sender_public_key = match PublicKey::from_bytes(&key) {
            Ok(k) => k,
            Err(_) => { return Err(ModelsError::InvalidPublicKey); },
        };
        let slot = match Slot::from_bytes(slice_subrange(buffer, 32, len), thread_count) {
            Ok(s) => s,
            Err(e) => { return Err(e); },
        };
        let (index, n) = match u32_from_varint_bounded(slice_subrange(buffer, 41, len), u32::MAX) {
            Ok(v) => v,
            Err(e) => { return Err(e); },
        };
        if len - 41 - n < 96 {
            return Err(ModelsError::BufferError);
        }
        let id = match read32(buffer, 41 + n) {
            Ok(v) => v,
            Err(e) => { return Err(e); },
        };
        let sig = match read64(buffer, 41 + n + 32) {
            Ok(v) => v,
            Err(e) => { return Err(e); },
        };
        let endorsed_block = match BlockId::from_bytes(&id) {
            Ok(v) => v,
            Err(e) => { return Err(e); },
        };
        let signature = match Signature::from_bytes(&sig) {
            Ok(v) => v,
            Err(_) => { return Err(ModelsError::SignatureError); },
        };
        Ok(
            (
                Endorsement {
                    content: EndorsementContent { sender_public_key, slot, index, endorsed_block },
                    signature,
                },
                41 + n + 96,
            ),
        )
    }
}

} // verus!
