//! What is known of the KONECT collection of data sets: where a data set is served, which of
//! its files holds the edges, and how far a download has come.

use bytes::BufMut;
use vstd::prelude::*;
use vstd::string::StringExecFns;

verus! {

/// The address from which the KONECT collection serves the data set of the given name.
pub fn konect_url(internal_name: &str) -> (url: String)
    ensures
        url@ == "http://konect.cc/files/download.tsv."@ + internal_name@ + ".tar.bz2"@,
{
    let mut url = String::from_str("http://konect.cc/files/download.tsv.");
    url.append(internal_name);
    url.append(".tar.bz2");
    url
}

/// Whether a file of a KONECT data set holds its edge list: its name begins with `out.`.
pub fn is_konect_edge_file(file_name: &[u8]) -> (b: bool)
    ensures
        b == (file_name@.len() >= 4 && file_name@[0] == 111 && file_name@[1] == 117
            && file_name@[2] == 116 && file_name@[3] == 46),
{
    file_name.len() >= 4 && file_name[0] == 111 && file_name[1] == 117 && file_name[2] == 116
        && file_name[3] == 46
}

/// How much of `total_size` bytes is fetched when `chunk_len` more bytes have come after
/// `fetched_size`: never more than the whole.
pub open spec fn progress(total_size: u64, fetched_size: u64, chunk_len: nat) -> u64 {
    if fetched_size + chunk_len < total_size {
        (fetched_size + chunk_len) as u64
    } else {
        total_size
    }
}

/// How much is fetched after one more chunk.
pub fn fetched_after(total_size: u64, fetched_size: u64, chunk_len: usize) -> (fetched: u64)
    ensures
        fetched == progress(total_size, fetched_size, chunk_len as nat),
{
    if fetched_size >= total_size || chunk_len as u64 >= total_size - fetched_size {
        total_size
    } else {
        fetched_size + chunk_len as u64
    }
}

/// Appends with `put` of `BufMut`, as the crate `bytes` has it for a vector of bytes: the
/// vector reserves room for the chunk and takes its bytes at its end. Where the room cannot
/// be reserved it panics, so the lengths together must stay within what a vector can hold.
#[verifier::external_body]
fn put_chunk(payload: &mut Vec<u8>, chunk: &[u8])
    requires
        old(payload)@.len() + chunk@.len() <= isize::MAX,
    ensures
        final(payload)@ == old(payload)@ + chunk@,
{
    payload.put(chunk);
}

/// Takes one more chunk of a download: the chunk goes to the end of the payload, and what
/// comes back is how much is fetched then. Where the payload would not fit in a vector,
/// nothing is done and nothing comes back.
pub fn receive(payload: &mut Vec<u8>, total_size: u64, fetched_size: u64, chunk: &[u8]) -> (fetched:
    Option<u64>)
    ensures
        old(payload)@.len() + chunk@.len() <= isize::MAX ==> final(payload)@ == old(payload)@
            + chunk@ && fetched == Some(progress(total_size, fetched_size, chunk@.len())),
        old(payload)@.len() + chunk@.len() > isize::MAX ==> final(payload)@ == old(payload)@
            && fetched is None,
{
    let room: usize = usize::MAX / 2;
    assert(room == isize::MAX);
    if payload.len() > room || chunk.len() > room - payload.len() {
        return None;
    }
    put_chunk(payload, chunk);
    Some(fetched_after(total_size, fetched_size, chunk.len()))
}

} // verus!
