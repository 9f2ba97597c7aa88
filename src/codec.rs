use vstd::prelude::*;
use crate::models::{HashValue, BlobLocation, IndexEntry, Commit, TreeEntry, EntryView, entry_views, le_bytes, lemma_le_bytes_len, push_le, push_bytes};

verus! {

/// Why a stored catalog value could not be read.
#[derive(Debug, Clone, Copy, PartialEq, Eq)]
pub enum CatalogError {
    /// The value's bytes do not have the shape of the record they encode.
    Corrupt,
}

/// `256` to the power `n`.
pub open spec fn pow256(n: nat) -> nat
    decreases n,
{
    if n == 0 {
        1
    } else {
        256 * pow256((n - 1) as nat)
    }
}

proof fn lemma_pow256_grows(m: nat, n: nat)
    requires
        m <= n,
    ensures
        pow256(m) <= pow256(n),
    decreases n,
{
    if m < n {
        lemma_pow256_grows(m, (n - 1) as nat);
    }
}

proof fn lemma_pow256_8()
    ensures
        pow256(8) == u64::MAX + 1,
{
    reveal_with_fuel(pow256, 9);
}

/// Below `256^n`, `n` little-endian bytes tell numbers apart.
pub proof fn lemma_le_bytes_injective(x: nat, y: nat, n: nat)
    requires
        x < pow256(n),
        y < pow256(n),
        le_bytes(x, n) == le_bytes(y, n),
    ensures
        x == y,
    decreases n,
{
    if n > 0 {
        let p = pow256((n - 1) as nat);
        assert(le_bytes(x, n)[0] == le_bytes(y, n)[0]);
        assert(le_bytes(x, n)[0] == (x % 256) as u8);
        assert(le_bytes(y, n)[0] == (y % 256) as u8);
        assert(le_bytes(x, n).drop_first() =~= le_bytes(x / 256, (n - 1) as nat));
        assert(le_bytes(y, n).drop_first() =~= le_bytes(y / 256, (n - 1) as nat));
        assert(x / 256 < p) by (nonlinear_arith)
            requires
                x < 256 * p,
        ;
        assert(y / 256 < p) by (nonlinear_arith)
            requires
                y < 256 * p,
        ;
        lemma_le_bytes_injective(x / 256, y / 256, (n - 1) as nat);
        assert(((x % 256) as u8) as nat == x % 256);
        assert(((y % 256) as u8) as nat == y % 256);
        assert(x == y) by (nonlinear_arith)
            requires
                x / 256 == y / 256,
                x % 256 == y % 256,
        ;
    } else {
        assert(pow256(0) == 1);
    }
}

/// Reads `n` little-endian bytes of `b` from `start`.
fn read_le(b: &[u8], start: usize, n: usize) -> (r: u64)
    requires
        1 <= n <= 8,
        start + n <= b@.len(),
    ensures
        le_bytes(r as nat, n as nat) == b@.subrange(start as int, start + n),
{
    let len = b.len();
    let mut v: u64 = 0;
    let mut j: usize = n;
    proof {
        assert(le_bytes(0, 0) =~= b@.subrange(start + n, start + n));
    }
    while j > 0
        invariant
            j <= n <= 8,
            start + n <= b@.len(),
            len == b@.len(),
            (v as nat) < pow256((n - j) as nat),
            le_bytes(v as nat, (n - j) as nat) == b@.subrange(start + j, start + n),
        decreases j,
    {
        let byte = b[start + j - 1];
        proof {
            lemma_pow256_grows((n - j) as nat, 7);
            reveal_with_fuel(pow256, 8);
            assert(pow256((n - j + 1) as nat) == 256 * pow256((n - j) as nat));
        }
        assert(v * 256 + byte < 256 * pow256((n - j) as nat)) by (nonlinear_arith)
            requires
                (v as nat) < pow256((n - j) as nat),
                byte < 256,
        ;
        assert(pow256(7) * 256 == u64::MAX + 1) by {
            reveal_with_fuel(pow256, 8);
        }
        assert(v * 256 + byte <= u64::MAX) by (nonlinear_arith)
            requires
                (v as nat) < pow256((n - j) as nat),
                pow256((n - j) as nat) <= pow256(7),
                pow256(7) * 256 == u64::MAX + 1,
                byte < 256,
        ;
        let w: u64 = v * 256 + byte as u64;
        assert(w % 256 == byte && w / 256 == v) by (nonlinear_arith)
            requires
                w == v * 256 + byte,
                byte < 256,
        ;
        assert(le_bytes(w as nat, (n - j + 1) as nat) =~= b@.subrange(start + j - 1, start + n));
        v = w;
        j = j - 1;
    }
    v
}

/// Stored form of a blob location: tape id, then offset, each eight bytes
/// little-endian.
pub open spec fn blob_location_bytes(l: BlobLocation) -> Seq<u8> {
    le_bytes(l.tape_id as nat, 8) + le_bytes(l.offset as nat, 8)
}

/// Stored form of an index row: modification time (two's complement),
/// size, each eight bytes little-endian, then the content hash.
pub open spec fn index_entry_bytes(e: IndexEntry) -> Seq<u8> {
    le_bytes((#[verifier::truncate] (e.mtime as u64)) as nat, 8) + le_bytes(e.size as nat, 8) + e.hash@
}

pub fn encode_blob_location(l: &BlobLocation) -> (r: Vec<u8>)
    ensures
        r@ == blob_location_bytes(*l),
{
    let mut out: Vec<u8> = Vec::new();
    push_le(&mut out, l.tape_id, 8);
    push_le(&mut out, l.offset, 8);
    out
}

pub fn decode_blob_location(b: &[u8]) -> (r: Result<BlobLocation, CatalogError>)
    ensures
        r is Ok <==> b@.len() == 16,
        r matches Ok(l) ==> blob_location_bytes(l) == b@,
        r matches Err(e) ==> e == CatalogError::Corrupt,
{
    if b.len() != 16 {
        return Err(CatalogError::Corrupt);
    }
    let tape_id = read_le(b, 0, 8);
    let offset = read_le(b, 8, 8);
    let l = BlobLocation { tape_id, offset };
    assert(blob_location_bytes(l) =~= b@);
    Ok(l)
}

pub fn encode_index_entry(e: &IndexEntry) -> (r: Vec<u8>)
    ensures
        r@ == index_entry_bytes(*e),
{
    let mut out: Vec<u8> = Vec::new();
    push_le(&mut out, e.mtime as u64, 8);
    push_le(&mut out, e.size, 8);
    push_bytes(&mut out, e.hash.as_slice());
    out
}

pub fn decode_index_entry(b: &[u8]) -> (r: Result<IndexEntry, CatalogError>)
    ensures
        r is Ok <==> b@.len() == 48,
        r matches Ok(e) ==> index_entry_bytes(e) == b@,
        r matches Err(e) ==> e == CatalogError::Corrupt,
{
    if b.len() != 48 {
        return Err(CatalogError::Corrupt);
    }
    let bits = read_le(b, 0, 8);
    let size = read_le(b, 8, 8);
    let mut hash: HashValue = [0u8; 32];
    let mut i: usize = 0;
    while i < 32
        invariant
            i <= 32,
            b@.len() == 48,
            hash@.len() == 32,
            forall|j: int| 0 <= j < i ==> hash@[j] == b@[16 + j],
        decreases 32 - i,
    {
        hash[i] = b[16 + i];
        i = i + 1;
    }
    let e = IndexEntry { mtime: bits as i64, size, hash };
    assert((#[verifier::truncate] ((#[verifier::truncate] (bits as i64)) as u64)) == bits) by (bit_vector);
    assert(e.hash@ =~= b@.subrange(16, 48));
    assert(index_entry_bytes(e) =~= b@);
    Ok(e)
}

/// A stored blob location reads back as the location that was stored.
pub proof fn lemma_blob_location_round_trip(l: BlobLocation, m: BlobLocation)
    requires
        blob_location_bytes(m) == blob_location_bytes(l),
    ensures
        m == l,
{
    lemma_pow256_8();
    lemma_le_bytes_len(l.tape_id as nat, 8);
    lemma_le_bytes_len(m.tape_id as nat, 8);
    lemma_le_bytes_len(l.offset as nat, 8);
    lemma_le_bytes_len(m.offset as nat, 8);
    let (a, b) = (blob_location_bytes(l), blob_location_bytes(m));
    assert(a.subrange(0, 8) =~= le_bytes(l.tape_id as nat, 8));
    assert(b.subrange(0, 8) =~= le_bytes(m.tape_id as nat, 8));
    assert(a.subrange(8, 16) =~= le_bytes(l.offset as nat, 8));
    assert(b.subrange(8, 16) =~= le_bytes(m.offset as nat, 8));
    lemma_le_bytes_injective(l.tape_id as nat, m.tape_id as nat, 8);
    lemma_le_bytes_injective(l.offset as nat, m.offset as nat, 8);
}

/// A stored index row reads back as the row that was stored.
pub proof fn lemma_index_entry_round_trip(e: IndexEntry, f: IndexEntry)
    requires
        index_entry_bytes(f) == index_entry_bytes(e),
    ensures
        f == e,
{
    lemma_pow256_8();
    let (x, y) = (#[verifier::truncate] (e.mtime as u64), #[verifier::truncate] (f.mtime as u64));
    lemma_le_bytes_len(x as nat, 8);
    lemma_le_bytes_len(y as nat, 8);
    lemma_le_bytes_len(e.size as nat, 8);
    lemma_le_bytes_len(f.size as nat, 8);
    let (a, b) = (index_entry_bytes(e), index_entry_bytes(f));
    assert(a.subrange(0, 8) =~= le_bytes(x as nat, 8));
    assert(b.subrange(0, 8) =~= le_bytes(y as nat, 8));
    assert(a.subrange(8, 16) =~= le_bytes(e.size as nat, 8));
    assert(b.subrange(8, 16) =~= le_bytes(f.size as nat, 8));
    assert(a.subrange(16, 48) =~= e.hash@);
    assert(b.subrange(16, 48) =~= f.hash@);
    lemma_le_bytes_injective(x as nat, y as nat, 8);
    lemma_le_bytes_injective(e.size as nat, f.size as nat, 8);
    let (em, fm) = (e.mtime, f.mtime);
    assert(em == fm) by (bit_vector)
        requires
            (#[verifier::truncate] (em as u64)) == (#[verifier::truncate] (fm as u64)),
    ;
    assert(e.hash =~= f.hash);
}

/// Stored form of a byte string: its length, eight bytes little-endian,
/// then the bytes.
pub open spec fn text_bytes(b: Seq<u8>) -> Seq<u8> {
    le_bytes(b.len(), 8) + b
}

/// Stored form of one tree entry: the UTF-8 name as text, the mode four
/// bytes little-endian, then the child's hash.
pub open spec fn entry_record_bytes(e: EntryView) -> Seq<u8> {
    text_bytes(vstd::utf8::encode_utf8(e.0)) + le_bytes(e.1 as nat, 4) + e.2
}

/// Stored form of a directory's entries: each entry's record, in order.
pub open spec fn tree_bytes(es: Seq<EntryView>) -> Seq<u8>
    decreases es.len(),
{
    if es.len() == 0 {
        Seq::empty()
    } else {
        tree_bytes(es.drop_last()) + entry_record_bytes(es.last())
    }
}

/// Stored form of a commit: the tree hash; a zero byte, or a one byte and
/// the parent's hash; author and message as text; the timestamp eight
/// bytes little-endian.
pub open spec fn commit_bytes(c: Commit) -> Seq<u8> {
    c.tree_hash@ + match c.parent_hash {
        None => seq![0u8],
        Some(p) => seq![1u8] + p@,
    } + text_bytes(vstd::utf8::encode_utf8(c.author@)) + text_bytes(vstd::utf8::encode_utf8(c.message@))
        + le_bytes(c.timestamp as nat, 8)
}

fn push_text(out: &mut Vec<u8>, b: &[u8])
    ensures
        final(out)@ == old(out)@ + text_bytes(b@),
{
    push_le(out, b.len() as u64, 8);
    push_bytes(out, b);
    assert(final(out)@ =~= old(out)@ + text_bytes(b@));
}

pub fn encode_tree(entries: &Vec<TreeEntry>) -> (r: Vec<u8>)
    ensures
        r@ == tree_bytes(entry_views(entries@)),
{
    let mut out: Vec<u8> = Vec::new();
    let mut i: usize = 0;
    while i < entries.len()
        invariant
            i <= entries@.len(),
            out@ == tree_bytes(entry_views(entries@.subrange(0, i as int))),
        decreases entries@.len() - i,
    {
        let e = &entries[i];
        let ghost before = out@;
        push_text(&mut out, e.name.as_str().as_bytes());
        push_le(&mut out, e.mode as u64, 4);
        push_bytes(&mut out, e.hash.as_slice());
        assert(entry_views(entries@.subrange(0, i as int + 1)).drop_last() =~= entry_views(
            entries@.subrange(0, i as int),
        ));
        assert(out@ =~= before + entry_record_bytes(e@));
        i = i + 1;
    }
    assert(entries@.subrange(0, i as int) =~= entries@);
    out
}

pub fn encode_commit(c: &Commit) -> (r: Vec<u8>)
    ensures
        r@ == commit_bytes(*c),
{
    let mut out: Vec<u8> = Vec::new();
    push_bytes(&mut out, c.tree_hash.as_slice());
    match &c.parent_hash {
        None => out.push(0u8),
        Some(p) => {
            out.push(1u8);
            push_bytes(&mut out, p.as_slice());
        },
    }
    push_text(&mut out, c.author.as_str().as_bytes());
    push_text(&mut out, c.message.as_str().as_bytes());
    push_le(&mut out, c.timestamp, 8);
    assert(out@ =~= commit_bytes(*c));
    out
}

} // verus!
