//! Draining a stream into a buffer, one fixed-size chunk at a time.
use vstd::prelude::*;
use vstd::utf8::{decode_utf8, valid_utf8};

use crate::error::ClientError;

verus! {

/// The size of one read; a shorter read ends the message.
pub const CHUNK_SIZE: usize = 1024;

/// Relies on `std::str::from_utf8`: it succeeds exactly on valid UTF-8, and
/// the string slice then holds the characters that the bytes encode.
#[verifier::external_body]
fn decode_chunk(bytes: &[u8]) -> (r: Option<&str>)
    ensures
        r is Some <==> valid_utf8(bytes@),
        r matches Some(s) ==> s@ == decode_utf8(bytes@),
{
    std::str::from_utf8(bytes).ok()
}

/// What a reader wants after a chunk was taken in.
#[derive(Clone, Copy, Debug, PartialEq, Eq, Structural)]
pub enum ReadStatus {
    /// The chunk filled a whole read: the message may go on.
    More,
    /// The chunk was short (or empty): the message is complete.
    Complete,
}

/// The status after a chunk of `len` bytes was taken in.
pub open spec fn status_after(len: nat) -> ReadStatus {
    if len < CHUNK_SIZE {
        ReadStatus::Complete
    } else {
        ReadStatus::More
    }
}

/// A message read so far: its raw bytes, and its text decoded chunk by chunk.
pub struct StreamReader {
    pub bytes: Vec<u8>,
    pub text: String,
}

impl StreamReader {
    pub fn new() -> (r: StreamReader)
        ensures
            r.bytes@ == Seq::<u8>::empty(),
            r.text@ == Seq::<char>::empty(),
    {
        StreamReader { bytes: Vec::new(), text: String::new() }
    }

    /// Takes in the bytes that one read returned. A chunk that is not valid
    /// UTF-8 by itself fails the read; otherwise its bytes and characters are
    /// appended, and the message is complete once a read comes back short.
    /// A full chunk never completes it: another read must follow.
    pub fn feed(&mut self, chunk: &[u8]) -> (r: Result<ReadStatus, ClientError>)
        requires
            chunk@.len() <= CHUNK_SIZE,
        ensures
            !valid_utf8(chunk@) ==> r == Err::<ReadStatus, ClientError>(
                ClientError::Utf8DecodeError,
            ) && *final(self) == *old(self),
            valid_utf8(chunk@) ==> {
                &&& r == Ok::<ReadStatus, ClientError>(status_after(chunk@.len()))
                &&& final(self).bytes@ == old(self).bytes@ + chunk@
                &&& final(self).text@ == old(self).text@ + decode_utf8(chunk@)
            },
            chunk@.len() == CHUNK_SIZE && valid_utf8(chunk@) ==> r == Ok::<
                ReadStatus,
                ClientError,
            >(ReadStatus::More),
    {
        if chunk.len() == 0 {
            assert(self.bytes@ + chunk@ =~= self.bytes@);
            assert(self.text@ + decode_utf8(chunk@) =~= self.text@);
            return Ok(ReadStatus::Complete);
        }
        match decode_chunk(chunk) {
            None => Err(ClientError::Utf8DecodeError),
            Some(s) => {
                self.bytes.extend_from_slice(chunk);
                assert(self.bytes@ =~= old(self).bytes@ + chunk@);
                self.text.append(s);
                if chunk.len() < CHUNK_SIZE {
                    Ok(ReadStatus::Complete)
                } else {
                    Ok(ReadStatus::More)
                }
            },
        }
    }
}

} // verus!
