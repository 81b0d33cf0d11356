use vstd::prelude::*;
use crate::codec::{decode, holds_record, stored_id, stored_len, stored_payload, u64_from_le, HEADER_LEN};
use crate::error::Error;
use crate::registry::{in_file, is_owner, Registry};

verus! {

/// Finds the file holding `loc` and the offset of `loc` within it. A location
/// that no file holds breaks the store's invariants and is reported as
/// `Corruption`.
pub fn resolve(files: &Registry, loc: u64) -> (r: Result<(usize, u64), Error>)
    requires
        files.wf(),
    ensures
        match r {
            Ok((i, off)) => is_owner(files@, i as int, loc) && in_file(files@[i as int], loc) && off
                == loc - files@[i as int].name.base_lsn,
            Err(e) => e == Error::Corruption && forall|i: int|
                is_owner(files@, i, loc) ==> !in_file(files@[i], loc),
        },
{
    match files.locate(loc) {
        Some(i) => {
            let f = files.get(i);
            let off = loc - f.name.base_lsn;
            if off < f.size {
                Ok((i, off))
            } else {
                Err(Error::Corruption)
            }
        },
        None => Err(Error::Corruption),
    }
}

/// The length of the whole record whose header is `header`, where `available`
/// bytes of the file start at the record. `Corruption` where the header is
/// cut short or its length runs past the available bytes.
pub fn record_len(header: &[u8], available: u64) -> (r: Result<u64, Error>)
    ensures
        match r {
            Ok(n) => header@.len() >= HEADER_LEN && stored_len(header@) <= available - HEADER_LEN
                && n == HEADER_LEN + stored_len(header@),
            Err(e) => e == Error::Corruption && (header@.len() < HEADER_LEN || available
                < HEADER_LEN || stored_len(header@) > available - HEADER_LEN),
        },
{
    if header.len() < HEADER_LEN || available < HEADER_LEN as u64 {
        return Err(Error::Corruption);
    }
    let len = (header[12] as u64) | ((header[13] as u64) << 8) | ((header[14] as u64) << 16) | ((
    header[15] as u64) << 24) | ((header[16] as u64) << 32) | ((header[17] as u64) << 40) | ((
    header[18] as u64) << 48) | ((header[19] as u64) << 56);
    assert(len == u64_from_le(header@, 12));
    if len > available - HEADER_LEN as u64 {
        return Err(Error::Corruption);
    }
    Ok(HEADER_LEN as u64 + len)
}

/// The payload of the record for page `id` that starts at `b[0]`; `Corruption`
/// where the record fails its checks or belongs to another page.
pub fn read_record(b: &[u8], id: u64) -> (r: Result<Vec<u8>, Error>)
    ensures
        match r {
            Ok(payload) => holds_record(b@) && stored_id(b@) == id && payload@ == stored_payload(
                b@,
            ),
            Err(e) => e == Error::Corruption && !(holds_record(b@) && stored_id(b@) == id),
        },
{
    match decode(b) {
        Ok((stored, payload)) => {
            if stored == id {
                Ok(payload)
            } else {
                Err(Error::Corruption)
            }
        },
        Err(_) => Err(Error::Corruption),
    }
}

} // verus!
