//! Byte payloads: shared, cheaply cloned `bytes::Bytes` buffers.

use bytes::Bytes;
use vstd::prelude::*;

verus! {

/// A shared byte buffer. Opaque here: its contents are `bytes_contents`.
#[verifier::external_type_specification]
#[verifier::external_body]
pub struct ExBytes(bytes::Bytes);

/// The bytes that a buffer holds.
pub uninterp spec fn bytes_contents(b: bytes::Bytes) -> Seq<u8>;

/// `Bytes::clone` shares the bytes: the clone holds the same.
#[verifier::external_body]
pub(crate) fn bytes_clone(b: &Bytes) -> (r: Bytes)
    ensures
        bytes_contents(r) == bytes_contents(*b),
{
    b.clone()
}

/// `Bytes::from(Vec<u8>)` holds the bytes of the vector.
#[verifier::external_body]
pub(crate) fn bytes_from(v: Vec<u8>) -> (b: Bytes)
    ensures
        bytes_contents(b) == v@,
{
    Bytes::from(v)
}

/// `Bytes` dereferences (`Bytes::deref`) to the slice of the bytes held.
#[verifier::external_body]
pub(crate) fn bytes_slice(b: &Bytes) -> (s: &[u8])
    ensures
        s@ == bytes_contents(*b),
{
    &b[..]
}

/// `Bytes::slice` holds the bytes of the range. It panics on a range that
/// ends before it starts or beyond the buffer.
#[verifier::external_body]
pub(crate) fn bytes_range(b: &Bytes, start: usize, end: usize) -> (r: Bytes)
    requires
        start <= end <= bytes_contents(*b).len(),
    ensures
        bytes_contents(r) == bytes_contents(*b).subrange(start as int, end as int),
{
    b.slice(start..end)
}

/// A vector with the bytes of `s` from `start` up to `end`.
pub fn copy_range(s: &[u8], start: usize, end: usize) -> (v: Vec<u8>)
    requires
        start <= end <= s@.len(),
    ensures
        v@ == s@.subrange(start as int, end as int),
{
    let mut v: Vec<u8> = Vec::new();
    let mut i: usize = start;
    while i < end
        invariant
            start <= i <= end <= s@.len(),
            v@ == s@.subrange(start as int, i as int),
        decreases end - i,
    {
        v.push(s[i]);
        proof {
            assert(s@.subrange(start as int, i + 1) =~= s@.subrange(start as int, i as int).push(
                s@[i as int],
            ));
        }
        i += 1;
    }
    v
}

/// `content` after `data` is written at `offset`: a gap is filled with zeros.
pub open spec fn spliced(content: Seq<u8>, offset: int, data: Seq<u8>) -> Seq<u8> {
    let end = offset + data.len();
    let len = if end > content.len() {
        end
    } else {
        content.len() as int
    };
    Seq::new(
        len as nat,
        |i: int|
            if offset <= i < end {
                data[i - offset]
            } else if i < content.len() {
                content[i]
            } else {
                0u8
            },
    )
}

/// `content` cut or filled with zeros to `size` bytes.
pub open spec fn resized(content: Seq<u8>, size: int) -> Seq<u8> {
    Seq::new(
        size as nat,
        |i: int|
            if i < content.len() {
                content[i]
            } else {
                0u8
            },
    )
}

/// The bytes of `content` from `offset` on, at most `size` of them.
pub open spec fn window(content: Seq<u8>, offset: int, size: int) -> Seq<u8> {
    if offset >= content.len() {
        Seq::empty()
    } else if offset + size >= content.len() {
        content.subrange(offset, content.len() as int)
    } else {
        content.subrange(offset, offset + size)
    }
}

/// Write `data` into `content` at `offset`.
pub fn splice(content: &[u8], offset: usize, data: &[u8]) -> (v: Vec<u8>)
    requires
        offset + data@.len() <= usize::MAX,
    ensures
        v@ == spliced(content@, offset as int, data@),
{
    let end: usize = offset + data.len();
    let len: usize = if end > content.len() {
        end
    } else {
        content.len()
    };
    let ghost goal = spliced(content@, offset as int, data@);
    let mut v: Vec<u8> = Vec::new();
    let mut i: usize = 0;
    while i < len
        invariant
            i <= len,
            end == offset + data@.len(),
            len == goal.len(),
            goal == spliced(content@, offset as int, data@),
            v@ == goal.take(i as int),
        decreases len - i,
    {
        let b: u8 = if offset <= i && i < end {
            data[i - offset]
        } else if i < content.len() {
            content[i]
        } else {
            0
        };
        v.push(b);
        proof {
            assert(goal[i as int] == b);
            assert(goal.take(i + 1) =~= goal.take(i as int).push(b));
        }
        i += 1;
    }
    assert(goal.take(len as int) =~= goal);
    v
}

/// Cut `content`, or fill it with zeros, to `size` bytes.
pub fn resize(content: &[u8], size: usize) -> (v: Vec<u8>)
    ensures
        v@ == resized(content@, size as int),
{
    let ghost goal = resized(content@, size as int);
    let mut v: Vec<u8> = Vec::new();
    let mut i: usize = 0;
    while i < size
        invariant
            i <= size,
            goal == resized(content@, size as int),
            v@ == goal.take(i as int),
        decreases size - i,
    {
        let b: u8 = if i < content.len() {
            content[i]
        } else {
            0
        };
        v.push(b);
        proof {
            assert(goal[i as int] == b);
            assert(goal.take(i + 1) =~= goal.take(i as int).push(b));
        }
        i += 1;
    }
    assert(goal.take(size as int) =~= goal);
    v
}

/// The bytes read back from where they were written are the bytes written.
pub proof fn lemma_read_after_write(content: Seq<u8>, offset: int, data: Seq<u8>)
    requires
        offset >= 0,
    ensures
        window(spliced(content, offset, data), offset, data.len() as int) == data,
{
    let w = window(spliced(content, offset, data), offset, data.len() as int);
    assert(w =~= data);
}

/// A read that does not meet the written range, and lies within the old
/// contents, is not changed by the write.
pub proof fn law_write_elsewhere(
    content: Seq<u8>,
    offset: int,
    data: Seq<u8>,
    at: int,
    size: int,
)
    requires
        0 <= offset,
        0 <= at,
        0 <= size,
        at + size <= content.len(),
        at + size <= offset || offset + data.len() <= at,
    ensures
        window(spliced(content, offset, data), at, size) == window(content, at, size),
{
    assert(window(spliced(content, offset, data), at, size) =~= window(content, at, size));
}

/// Writing past the end leaves zeros between the old end and the new bytes.
pub proof fn law_gap_is_zero(content: Seq<u8>, offset: int, data: Seq<u8>, i: int)
    requires
        content.len() <= i < offset,
    ensures
        spliced(content, offset, data)[i] == 0,
{
}

/// What reading gives: the bytes from the offset on, as many as asked for or
/// as are left.
pub proof fn law_window(content: Seq<u8>, offset: int, size: int, i: int)
    requires
        0 <= offset,
        0 <= size,
    ensures
        window(content, offset, size).len() == (if offset >= content.len() {
            0
        } else if content.len() - offset < size {
            content.len() - offset
        } else {
            size
        }),
        0 <= i < window(content, offset, size).len() ==> window(content, offset, size)[i]
            == content[offset + i],
{
}

/// What writing and resizing give: the new bytes where they were written, the
/// old ones elsewhere, zeros where there were none, and no more than that.
pub proof fn law_splice_and_resize(
    content: Seq<u8>,
    offset: int,
    data: Seq<u8>,
    size: int,
    i: int,
)
    requires
        0 <= offset,
        0 <= size,
    ensures
        spliced(content, offset, data).len() >= content.len(),
        spliced(content, offset, data).len() >= offset + data.len(),
        spliced(content, offset, data).len() == content.len() || spliced(
            content,
            offset,
            data,
        ).len() == offset + data.len(),
        offset <= i < offset + data.len() ==> spliced(content, offset, data)[i] == data[i - offset],
        0 <= i < content.len() && !(offset <= i < offset + data.len()) ==> spliced(
            content,
            offset,
            data,
        )[i] == content[i],
        resized(content, size).len() == size,
        0 <= i < size && i < content.len() ==> resized(content, size)[i] == content[i],
        content.len() <= i < size ==> resized(content, size)[i] == 0,
{
}

} // verus!
