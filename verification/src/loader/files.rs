use vstd::prelude::*;

verus! {

/// Largest file the loader reads.
pub const MAX_FILE_BYTES: usize = 32 * 1024 * 1024;

#[derive(Clone, Copy, Debug, PartialEq, Eq, Structural)]
pub enum FileError {
    Open,
    InvalidHandle,
    Read,
    TooLarge,
}

/// Takes the next chunk read from a loader file: an empty chunk ends the file (`Ok(true)`);
/// any other chunk is appended (`Ok(false)`) unless the file would grow past
/// `MAX_FILE_BYTES`, which is refused with the contents left as they were.
pub fn accept_chunk(contents: &mut Vec<u8>, chunk: &[u8]) -> (r: Result<bool, FileError>)
    ensures
        chunk@.len() == 0 ==> r == Ok::<bool, FileError>(true) && final(contents)@ == old(
            contents,
        )@,
        chunk@.len() > 0 && old(contents)@.len() + chunk@.len() > MAX_FILE_BYTES ==> r == Err::<
            bool,
            FileError,
        >(FileError::TooLarge) && final(contents)@ == old(contents)@,
        chunk@.len() > 0 && old(contents)@.len() + chunk@.len() <= MAX_FILE_BYTES ==> r == Ok::<
            bool,
            FileError,
        >(false) && final(contents)@ == old(contents)@ + chunk@,
{
    let count = chunk.len();
    if count == 0 {
        return Ok(true);
    }
    let end = match contents.len().checked_add(count) {
        Some(end) => end,
        None => return Err(FileError::TooLarge),
    };
    if end > MAX_FILE_BYTES {
        return Err(FileError::TooLarge);
    }
    let ghost start = contents@;
    let mut i: usize = 0;
    while i < count
        invariant
            count == chunk@.len(),
            i <= count,
            contents@ == start + chunk@.subrange(0, i as int),
        decreases count - i,
    {
        contents.push(chunk[i]);
        proof {
            assert(chunk@.subrange(0, i + 1) =~= chunk@.subrange(0, i as int).push(chunk@[i as int]));
        }
        i = i + 1;
    }
    proof {
        assert(chunk@.subrange(0, count as int) =~= chunk@);
    }
    Ok(false)
}

} // verus!
