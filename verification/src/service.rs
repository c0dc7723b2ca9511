//! Rules of a tagging service: where a request says its image is, and how
//! many bytes of an image are fetched.

use vstd::prelude::*;

verus! {

/// The number of bytes that an image to fetch has to stay below: 8 MiB.
pub const MAX_SIZE: u64 = 8 * 1024 * 1024;

/// The content type of a form that may carry a file, in bytes:
/// `multipart/form-data`.
pub const MULTIPART: [u8; 19] = [
    0x6D,
    0x75,
    0x6C,
    0x74,
    0x69,
    0x70,
    0x61,
    0x72,
    0x74,
    0x2F,
    0x66,
    0x6F,
    0x72,
    0x6D,
    0x2D,
    0x64,
    0x61,
    0x74,
    0x61,
];

/// The byte `=`, after which a content type names its boundary.
pub const EQUALS: u8 = 0x3D;

/// Whether a response that declares its length is refused before any of it
/// is read: where it declares more than `MAX_SIZE` bytes.
pub fn declared_too_large(content_length: Option<u64>) -> (r: bool)
    ensures
        r == (content_length matches Some(length) && length > MAX_SIZE),
{
    match content_length {
        Some(length) => length > MAX_SIZE,
        None => false,
    }
}

/// Counts a chunk of `chunk` bytes in with the `received` bytes of an image:
/// the new count where it is below `MAX_SIZE`, and nothing where the image
/// has become too large.
pub fn count_in(received: u64, chunk: usize) -> (r: Option<u64>)
    ensures
        r == if received + chunk < MAX_SIZE {
            Some((received + chunk) as u64)
        } else {
            None::<u64>
        },
{
    if received < MAX_SIZE && (chunk as u64) < MAX_SIZE - received {
        Some(received + chunk as u64)
    } else {
        None
    }
}

/// What a content type says of a multipart boundary.
#[derive(Debug, Clone, Copy, PartialEq, Eq, Structural)]
pub enum Boundary {
    /// The content type is not that of a multipart form.
    NotMultipart,
    /// The content type is that of a multipart form and names no boundary.
    Missing,
    /// The boundary starts at this position and goes to the end.
    At(usize),
}

/// Whether the content type is that of a multipart form: it begins with
/// `multipart/form-data`.
pub open spec fn is_multipart(content_type: Seq<u8>) -> bool {
    MULTIPART@.is_prefix_of(content_type)
}

/// Finds the boundary that a content type names: what follows its first
/// `=`, where it is the content type of a multipart form.
pub fn boundary(content_type: &[u8]) -> (r: Boundary)
    ensures
        match r {
            Boundary::NotMultipart => !is_multipart(content_type@),
            Boundary::Missing => is_multipart(content_type@) && forall|j: int|
                0 <= j < content_type@.len() ==> content_type@[j] != EQUALS,
            Boundary::At(start) => {
                &&& is_multipart(content_type@)
                &&& 0 < start <= content_type@.len()
                &&& content_type@[start - 1] == EQUALS
                &&& forall|j: int| 0 <= j < start - 1 ==> content_type@[j] != EQUALS
            },
        },
{
    let n = content_type.len();
    if n < 19 {
        return Boundary::NotMultipart;
    }
    let mut i: usize = 0;
    while i < 19
        invariant
            i <= 19 <= n,
            n == content_type@.len(),
            forall|j: int| 0 <= j < i ==> content_type@[j] == MULTIPART@[j],
        decreases 19 - i,
    {
        if content_type[i] != MULTIPART[i] {
            return Boundary::NotMultipart;
        }
        i += 1;
    }
    let mut at: usize = 0;
    while at < n
        invariant
            at <= n,
            n == content_type@.len(),
            is_multipart(content_type@),
            forall|j: int| 0 <= j < at ==> content_type@[j] != EQUALS,
        decreases n - at,
    {
        if content_type[at] == EQUALS {
            return Boundary::At(at + 1);
        }
        at += 1;
    }
    Boundary::Missing
}

} // verus!
