use vstd::prelude::*;

verus! {

/// A content identity: the 32 bytes of a BLAKE3 digest.
pub type HashValue = [u8; 32];

/// Directory entries carry this mode in their tree records.
pub const DIR_MODE: u32 = 0o040755;

/// Regular files carry this mode in their tree records.
pub const FILE_MODE: u32 = 0o100644;

/// The BLAKE3 digest of a byte sequence.
pub uninterp spec fn blake3_of(data: Seq<u8>) -> Seq<u8>;

/// Relies on `blake3::hash`: the 32-byte BLAKE3 digest of the whole input.
#[verifier::external_body]
fn blake3_digest(data: &[u8]) -> (r: HashValue)
    ensures
        r@ == blake3_of(data@),
{
    *blake3::hash(data).as_bytes()
}

/// Digest of a byte sequence held by the library.
pub fn digest(data: &Vec<u8>) -> (r: HashValue)
    ensures
        r@ == blake3_of(data@),
{
    blake3_digest(data.as_slice())
}

/// Whether two hashes hold the same bytes.
pub fn same_hash(a: &HashValue, b: &HashValue) -> (r: bool)
    ensures
        r == (a@ == b@),
{
    let mut i: usize = 0;
    while i < 32
        invariant
            i <= 32,
            a@.len() == 32,
            b@.len() == 32,
            forall|j: int| 0 <= j < i ==> a@[j] == b@[j],
        decreases 32 - i,
    {
        if a[i] != b[i] {
            return false;
        }
        i = i + 1;
    }
    assert(a@ =~= b@);
    true
}

/// The `n` low bytes of `x`, least significant first.
pub open spec fn le_bytes(x: nat, n: nat) -> Seq<u8>
    decreases n,
{
    if n == 0 {
        Seq::empty()
    } else {
        seq![(x % 256) as u8] + le_bytes(x / 256, (n - 1) as nat)
    }
}

/// `n` little-endian bytes are `n` bytes.
pub proof fn lemma_le_bytes_len(x: nat, n: nat)
    ensures
        le_bytes(x, n).len() == n,
    decreases n,
{
    if n > 0 {
        lemma_le_bytes_len(x / 256, (n - 1) as nat);
    }
}

/// Appends the `n` low bytes of `x` to `out`, least significant first.
pub fn push_le(out: &mut Vec<u8>, x: u64, n: usize)
    requires
        n <= 8,
    ensures
        final(out)@ == old(out)@ + le_bytes(x as nat, n as nat),
{
    let mut v: u64 = x;
    let mut i: usize = 0;
    while i < n
        invariant
            i <= n,
            out@ + le_bytes(v as nat, (n - i) as nat) == old(out)@ + le_bytes(x as nat, n as nat),
        decreases n - i,
    {
        let ghost before = out@;
        out.push((v % 256) as u8);
        assert(le_bytes(v as nat, (n - i) as nat) == seq![(v % 256) as u8] + le_bytes(
            (v / 256) as nat,
            (n - i - 1) as nat,
        ));
        assert(before + le_bytes(v as nat, (n - i) as nat) =~= out@ + le_bytes(
            (v / 256) as nat,
            (n - i - 1) as nat,
        ));
        v = v / 256;
        i = i + 1;
    }
    assert(le_bytes(v as nat, 0) =~= Seq::<u8>::empty());
    assert(out@ =~= out@ + le_bytes(v as nat, 0));
}

/// Appends a byte sequence to `out`.
pub fn push_bytes(out: &mut Vec<u8>, data: &[u8])
    ensures
        final(out)@ == old(out)@ + data@,
{
    let mut i: usize = 0;
    while i < data.len()
        invariant
            i <= data@.len(),
            out@ == old(out)@ + data@.subrange(0, i as int),
        decreases data@.len() - i,
    {
        out.push(data[i]);
        assert(data@.subrange(0, i as int + 1) =~= data@.subrange(0, i as int).push(data@[i as int]));
        i = i + 1;
    }
    assert(data@.subrange(0, data@.len() as int) =~= data@);
}

/// Per-file metadata as the backup records it.
#[derive(Debug, Clone, Copy, PartialEq, Eq)]
pub struct FileMetadata {
    pub size: u64,
    pub mtime: i64,
    pub mode: u32,
    pub uid: u32,
    pub gid: u32,
    pub content_hash: HashValue,
}

/// The bytes whose digest identifies a metadata record: each numeric field
/// little-endian in declaration order, then the content hash.
pub open spec fn metadata_identity_bytes(m: FileMetadata) -> Seq<u8> {
    le_bytes(m.size as nat, 8) + le_bytes((#[verifier::truncate] (m.mtime as u64)) as nat, 8) + le_bytes(m.mode as nat, 4)
        + le_bytes(m.uid as nat, 4) + le_bytes(m.gid as nat, 4) + m.content_hash@
}

impl FileMetadata {
    /// Identity hash of this metadata record.
    pub fn compute_hash(&self) -> (r: HashValue)
        ensures
            r@ == blake3_of(metadata_identity_bytes(*self)),
    {
        let mut bytes: Vec<u8> = Vec::new();
        push_le(&mut bytes, self.size, 8);
        push_le(&mut bytes, self.mtime as u64, 8);
        push_le(&mut bytes, self.mode as u64, 4);
        push_le(&mut bytes, self.uid as u64, 4);
        push_le(&mut bytes, self.gid as u64, 4);
        push_bytes(&mut bytes, self.content_hash.as_slice());
        digest(&bytes)
    }
}

/// One named child of a directory in the Merkle tree.
#[derive(Debug, Clone, PartialEq, Eq)]
pub struct TreeEntry {
    pub name: String,
    pub mode: u32,
    pub hash: HashValue,
}

/// What a tree entry is: its name, mode and child hash.
pub type EntryView = (Seq<char>, u32, Seq<u8>);

impl View for TreeEntry {
    type V = EntryView;

    open spec fn view(&self) -> EntryView {
        (self.name@, self.mode, self.hash@)
    }
}

/// The bytes whose digest identifies a tree entry: the UTF-8 name, the mode
/// little-endian, then the child's hash.
pub open spec fn entry_identity_bytes(e: EntryView) -> Seq<u8> {
    vstd::utf8::encode_utf8(e.0) + le_bytes(e.1 as nat, 4) + e.2
}

/// Identity hash of a tree entry.
pub open spec fn entry_identity(e: EntryView) -> Seq<u8> {
    blake3_of(entry_identity_bytes(e))
}

/// The identity hashes of `es`, concatenated in order.
pub open spec fn concat_identities(es: Seq<EntryView>) -> Seq<u8>
    decreases es.len(),
{
    if es.len() == 0 {
        Seq::empty()
    } else {
        concat_identities(es.drop_last()) + entry_identity(es.last())
    }
}

/// HashValue of a directory whose entries, in name order, are `es`.
pub open spec fn tree_hash_of(es: Seq<EntryView>) -> Seq<u8> {
    blake3_of(concat_identities(es))
}

/// The views of a sequence of tree entries.
pub open spec fn entry_views(es: Seq<TreeEntry>) -> Seq<EntryView> {
    es.map_values(|e: TreeEntry| e@)
}

/// Lexicographic order on byte strings.
pub open spec fn bytes_less(a: Seq<u8>, b: Seq<u8>) -> bool
    decreases a.len(),
{
    if a.len() == 0 {
        b.len() > 0
    } else if b.len() == 0 {
        false
    } else if a[0] != b[0] {
        a[0] < b[0]
    } else {
        bytes_less(a.drop_first(), b.drop_first())
    }
}

impl TreeEntry {
    /// Identity hash of this entry.
    pub fn compute_hash(&self) -> (r: HashValue)
        ensures
            r@ == entry_identity(self@),
    {
        let mut bytes: Vec<u8> = Vec::new();
        push_bytes(&mut bytes, self.name.as_str().as_bytes());
        push_le(&mut bytes, self.mode as u64, 4);
        push_bytes(&mut bytes, self.hash.as_slice());
        assert(bytes@ =~= entry_identity_bytes(self@));
        digest(&bytes)
    }
}

/// The hash of a directory without entries is the digest of no bytes.
pub proof fn lemma_empty_tree_hash()
    ensures
        tree_hash_of(Seq::empty()) == blake3_of(Seq::empty()),
{
    assert(concat_identities(Seq::<EntryView>::empty()) =~= Seq::<u8>::empty());
}

/// HashValue of a directory: the digest of its entries' identity hashes,
/// concatenated in the order given (callers pass them in name order).
pub fn hash_tree(entries: &Vec<TreeEntry>) -> (r: HashValue)
    ensures
        r@ == tree_hash_of(entry_views(entries@)),
{
    let mut bytes: Vec<u8> = Vec::new();
    let mut i: usize = 0;
    while i < entries.len()
        invariant
            i <= entries@.len(),
            bytes@ == concat_identities(entry_views(entries@.subrange(0, i as int))),
        decreases entries@.len() - i,
    {
        let h = entries[i].compute_hash();
        push_bytes(&mut bytes, h.as_slice());
        assert(entry_views(entries@.subrange(0, i as int + 1)).drop_last() =~= entry_views(
            entries@.subrange(0, i as int),
        ));
        i = i + 1;
    }
    assert(entries@.subrange(0, entries@.len() as int) =~= entries@);
    digest(&bytes)
}

/// A snapshot record pointing at a root tree.
#[derive(Debug, Clone, PartialEq, Eq)]
pub struct Commit {
    pub tree_hash: HashValue,
    pub parent_hash: Option<HashValue>,
    pub author: String,
    pub message: String,
    pub timestamp: u64,
}

/// Where a blob sits on a tape: the byte offset of its archive header.
#[derive(Debug, Clone, Copy, PartialEq, Eq)]
pub struct BlobLocation {
    pub tape_id: u64,
    pub offset: u64,
}

/// The fast-path record kept for each file path seen before.
#[derive(Debug, Clone, Copy, PartialEq, Eq)]
pub struct IndexEntry {
    pub mtime: i64,
    pub size: u64,
    pub hash: HashValue,
}

} // verus!
