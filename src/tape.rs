use vstd::prelude::*;
use crate::models::{HashValue, BlobLocation};
use crate::pipeline::BackupPlan;

verus! {

/// Size of an archive header, and the block size payloads are padded to.
pub const BLOCK: u64 = 512;

/// Bytes one blob of `size` bytes takes on tape: a header block, then the
/// payload padded to whole blocks.
pub open spec fn blob_span(size: u64) -> int {
    512 + ((size as int + 511) / 512) * 512
}

/// Bytes that precede a member's own header when its name does not fit the
/// header's 100-byte name field: a GNU long-name entry holding the name and
/// a terminating zero. Nothing for shorter names.
pub open spec fn long_name_span(name_len: u64) -> int {
    if name_len > 100 {
        512 + ((name_len + 1 + 511) / 512) * 512
    } else {
        0
    }
}

/// Bytes one blob's member takes on tape.
pub open spec fn member_span(name_len: u64, size: u64) -> int {
    long_name_span(name_len) + blob_span(size)
}

/// Offset of the `i`-th blob's member when members with names of
/// `name_lens` bytes and contents of `sizes` bytes are appended from
/// `start`. With names of at most 100 bytes each step is
/// `512 + ceil(size / 512) * 512`.
pub open spec fn offset_at(start: u64, sizes: Seq<u64>, name_lens: Seq<u64>, i: int) -> int
    decreases i,
{
    if i <= 0 {
        start as int
    } else {
        offset_at(start, sizes, name_lens, i - 1) + member_span(name_lens[i - 1], sizes[i - 1])
    }
}

/// Offsets only grow along the tape.
pub proof fn lemma_offsets_grow(start: u64, sizes: Seq<u64>, name_lens: Seq<u64>, i: int, j: int)
    requires
        0 <= i <= j,
    ensures
        offset_at(start, sizes, name_lens, i) < offset_at(start, sizes, name_lens, j) || i == j,
    decreases j,
{
    if i < j {
        lemma_offsets_grow(start, sizes, name_lens, i, j - 1);
    }
}

/// An empty blob takes exactly its header block.
pub proof fn lemma_empty_blob_span()
    ensures
        blob_span(0) == 512,
{
}

/// Why a layout could not be made.
#[derive(Debug, Clone, Copy, PartialEq, Eq)]
pub enum TapeError {
    /// A blob would start or end beyond the largest representable offset.
    OffsetOverflow,
}

/// The bytes a blob takes on tape, or `None` where that is not representable.
fn span_of(size: u64) -> (r: Option<u64>)
    ensures
        r is Some <==> blob_span(size) <= u64::MAX,
        r is Some ==> r->Some_0 == blob_span(size),
{
    let blocks: u64 = size / 512 + if size % 512 != 0 { 1 } else { 0 };
    assert(blocks == (size as int + 511) / 512) by (nonlinear_arith)
        requires
            blocks == size / 512 + if size % 512 != 0 { 1int } else { 0int },
    ;
    if blocks > (u64::MAX - 512) / 512 {
        assert(blob_span(size) > u64::MAX) by (nonlinear_arith)
            requires
                blocks > (u64::MAX - 512) / 512,
                blocks == (size as int + 511) / 512,
        ;
        None
    } else {
        assert(blocks * 512 + 512 <= u64::MAX) by (nonlinear_arith)
            requires
                blocks <= (u64::MAX - 512) / 512,
        ;
        Some(512 + blocks * 512)
    }
}

/// The bytes a blob's member takes on tape, or `None` where that is not
/// representable.
fn member_span_of(name_len: u64, size: u64) -> (r: Option<u64>)
    ensures
        r is Some <==> member_span(name_len, size) <= u64::MAX,
        r is Some ==> r->Some_0 == member_span(name_len, size),
{
    let body = span_of(size);
    if name_len <= 100 {
        return body;
    }
    if name_len == u64::MAX {
        assert(((name_len + 1 + 511) / 512) * 512 >= name_len + 1) by (nonlinear_arith);
        return None;
    }
    match (span_of(name_len + 1), body) {
        (Some(a), Some(b)) if a <= u64::MAX - b => Some(a + b),
        _ => None,
    }
}

/// Where each blob of `plan` lands when the blobs are appended in plan order
/// to tape `tape_id` from `start`, the `i`-th having `sizes[i]` bytes of
/// content and a member name of `name_lens[i]` bytes. Each location is the offset of the blob's header; the offset
/// after the last blob comes with them.
pub fn lay_out(plan: &BackupPlan, sizes: &Vec<u64>, name_lens: &Vec<u64>, tape_id: u64, start: u64) -> (r: Result<
    (Vec<(HashValue, BlobLocation)>, u64),
    TapeError,
>)
    requires
        plan.wf(),
        sizes@.len() == plan.new_files@.len(),
        name_lens@.len() == sizes@.len(),
    ensures
        r is Ok <==> offset_at(start, sizes@, name_lens@, sizes@.len() as int) <= u64::MAX,
        r matches Ok((locs, end)) ==> {
            &&& end == offset_at(start, sizes@, name_lens@, sizes@.len() as int)
            &&& locs@.len() == sizes@.len()
            &&& forall|i: int|
                0 <= i < locs@.len() ==> {
                    &&& (#[trigger] locs@[i]).0 == plan.new_files@[i].1
                    &&& locs@[i].1.tape_id == tape_id
                    &&& locs@[i].1.offset == offset_at(start, sizes@, name_lens@, i)
                }
            &&& forall|i: int, j: int| 0 <= i < j < locs@.len() ==> (#[trigger] locs@[i]).0 != (#[trigger] locs@[j]).0
        },
{
    let mut locs: Vec<(HashValue, BlobLocation)> = Vec::new();
    let mut offset: u64 = start;
    let mut i: usize = 0;
    while i < sizes.len()
        invariant
            i <= sizes@.len(),
            sizes@.len() == plan.new_files@.len(),
            name_lens@.len() == sizes@.len(),
            offset == offset_at(start, sizes@, name_lens@, i as int),
            locs@.len() == i,
            forall|k: int|
                0 <= k < i ==> {
                    &&& (#[trigger] locs@[k]).0 == plan.new_files@[k].1
                    &&& locs@[k].1.tape_id == tape_id
                    &&& locs@[k].1.offset == offset_at(start, sizes@, name_lens@, k)
                },
        decreases sizes@.len() - i,
    {
        match member_span_of(name_lens[i], sizes[i]) {
            Some(span) if span <= u64::MAX - offset => {
                locs.push((plan.new_files[i].1, BlobLocation { tape_id, offset }));
                offset = offset + span;
            },
            _ => {
                proof {
                    lemma_offsets_grow(start, sizes@, name_lens@, i as int + 1, sizes@.len() as int);
                }
                return Err(TapeError::OffsetOverflow);
            },
        }
        i = i + 1;
    }
    assert forall|i: int, j: int| 0 <= i < j < locs@.len() implies (#[trigger] locs@[i]).0 != (#[trigger] locs@[j]).0 by {
        assert(plan@.0[i].1 != plan@.0[j].1);
    }
    Ok((locs, offset))
}

/// The sixteen lowercase hexadecimal digits.
pub open spec fn hex_digit(n: int) -> char {
    seq!['0', '1', '2', '3', '4', '5', '6', '7', '8', '9', 'a', 'b', 'c', 'd', 'e', 'f'][n]
}

/// Lowercase hexadecimal text of `b`: two digits per byte, high nibble first.
pub open spec fn hex_of(b: Seq<u8>) -> Seq<char>
    decreases b.len(),
{
    if b.len() == 0 {
        Seq::empty()
    } else {
        hex_of(b.drop_last()) + seq![hex_digit(b.last() as int / 16), hex_digit(b.last() as int % 16)]
    }
}

/// Relies on `hex::encode`: two lowercase hexadecimal digits per input byte,
/// high nibble first.
#[verifier::external_body]
fn hex_encode(data: &[u8]) -> (r: String)
    ensures
        r@ == hex_of(data@),
{
    hex::encode(data)
}

/// Name of a blob's archive member: the file's base name, an underscore, and
/// the first sixteen hexadecimal digits of its hash.
pub open spec fn member_name_of(base: Seq<char>, h: Seq<u8>) -> Seq<char> {
    base + seq!['_'] + hex_of(h.subrange(0, 8))
}

/// The archive member name for a blob of file `base` with hash `h`.
pub fn member_name(base: &str, h: &HashValue) -> (r: String)
    ensures
        r@ == member_name_of(base@, h@),
{
    let mut prefix: Vec<u8> = Vec::new();
    let mut i: usize = 0;
    while i < 8
        invariant
            i <= 8,
            h@.len() == 32,
            prefix@ == h@.subrange(0, i as int),
        decreases 8 - i,
    {
        prefix.push(h[i]);
        assert(h@.subrange(0, i as int + 1) =~= h@.subrange(0, i as int).push(h@[i as int]));
        i = i + 1;
    }
    let digits = hex_encode(prefix.as_slice());
    let name = String::from_str(base).concat("_");
    proof {
        reveal_strlit("_");
    }
    let r = name.concat(digits.as_str());
    assert(r@ =~= member_name_of(base@, h@));
    r
}

} // verus!
