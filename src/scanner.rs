use vstd::prelude::*;
use vstd::multiset::Multiset;
use crate::models::bytes_less;

verus! {

/// One child of a scanned directory. Paths and names are held as the lossy
/// UTF-8 form of the platform path, the same form the index is keyed by.
#[derive(Debug, Clone)]
pub struct ScannedEntry {
    pub name: String,
    pub is_dir: bool,
    pub path: String,
    /// The platform path's raw bytes, through which the file is read.
    pub raw_path: Vec<u8>,
}

/// One directory's listing as the walker reports it.
#[derive(Debug)]
pub struct ScannedDir {
    pub path: String,
    pub entries: Vec<ScannedEntry>,
}

/// The walker's configuration: the root it starts from.
pub struct Scanner {
    pub root: String,
}

impl Scanner {
    pub fn new(root: String) -> (r: Scanner)
        ensures
            r.root@ == root@,
    {
        Scanner { root }
    }

    pub fn root(&self) -> (r: &String)
        ensures
            r@ == self.root@,
    {
        &self.root
    }
}

/// The bytes of an entry's name.
pub open spec fn name_bytes(e: ScannedEntry) -> Seq<u8> {
    vstd::utf8::encode_utf8(e.name@)
}

/// Entries ascend by name under byte comparison.
pub open spec fn sorted_by_name(es: Seq<ScannedEntry>) -> bool {
    forall|a: int, b: int|
        0 <= a < b < es.len() ==> !bytes_less(name_bytes(#[trigger] es[b]), name_bytes(#[trigger] es[a]))
}

impl ScannedDir {
    /// The listing's entries ascend by name.
    pub open spec fn wf(&self) -> bool {
        sorted_by_name(self.entries@)
    }

    /// A directory's listing with its children put in ascending name order.
    pub fn new(path: String, children: Vec<ScannedEntry>) -> (r: ScannedDir)
        ensures
            r.path@ == path@,
            r.wf(),
            r.entries@.to_multiset() == children@.to_multiset(),
    {
        ScannedDir { path, entries: sort_by_name(children) }
    }
}

proof fn lemma_less_asym(a: Seq<u8>, b: Seq<u8>)
    ensures
        bytes_less(a, b) ==> !bytes_less(b, a),
    decreases a.len(),
{
    if a.len() > 0 && b.len() > 0 && a[0] == b[0] {
        lemma_less_asym(a.drop_first(), b.drop_first());
    }
}

proof fn lemma_not_less_trans(a: Seq<u8>, b: Seq<u8>, c: Seq<u8>)
    requires
        !bytes_less(b, a),
        !bytes_less(c, b),
    ensures
        !bytes_less(c, a),
    decreases a.len(),
{
    if a.len() > 0 && b.len() > 0 && c.len() > 0 && a[0] == b[0] && b[0] == c[0] {
        lemma_not_less_trans(a.drop_first(), b.drop_first(), c.drop_first());
    }
}

/// Byte comparison of two names.
fn name_less(a: &str, b: &str) -> (r: bool)
    ensures
        r == bytes_less(vstd::utf8::encode_utf8(a@), vstd::utf8::encode_utf8(b@)),
{
    let x = a.as_bytes();
    let y = b.as_bytes();
    let mut i: usize = 0;
    assert(x@.subrange(0, x@.len() as int) =~= x@);
    assert(y@.subrange(0, y@.len() as int) =~= y@);
    while i < x.len() && i < y.len()
        invariant
            i <= x@.len(),
            i <= y@.len(),
            x@ == vstd::utf8::encode_utf8(a@),
            y@ == vstd::utf8::encode_utf8(b@),
            bytes_less(x@, y@) == bytes_less(x@.subrange(i as int, x@.len() as int), y@.subrange(i as int, y@.len() as int)),
        decreases x@.len() - i,
    {
        let ghost (xs, ys) = (x@.subrange(i as int, x@.len() as int), y@.subrange(i as int, y@.len() as int));
        assert(xs.len() > 0 && ys.len() > 0);
        assert(xs[0] == x@[i as int] && ys[0] == y@[i as int]);
        if x[i] != y[i] {
            return x[i] < y[i];
        }
        assert(xs.drop_first() =~= x@.subrange(i as int + 1, x@.len() as int));
        assert(ys.drop_first() =~= y@.subrange(i as int + 1, y@.len() as int));
        i = i + 1;
    }
    i == x.len() && i < y.len()
}

/// Puts entries in ascending name order, keeping every entry.
pub fn sort_by_name(children: Vec<ScannedEntry>) -> (r: Vec<ScannedEntry>)
    ensures
        sorted_by_name(r@),
        r@.to_multiset() == children@.to_multiset(),
{
    broadcast use vstd::seq_lib::group_to_multiset_ensures;

    let mut input = children;
    let mut out: Vec<ScannedEntry> = Vec::new();
    while input.len() > 0
        invariant
            sorted_by_name(out@),
            out@.to_multiset().add(input@.to_multiset()) == children@.to_multiset(),
        decreases input@.len(),
    {
        let ghost before_in = input@;
        let x = input.pop().unwrap();
        assert(before_in =~= input@.push(x));
        let mut p: usize = 0;
        while p < out.len() && name_less(out[p].name.as_str(), x.name.as_str())
            invariant
                p <= out@.len(),
                forall|q: int| 0 <= q < p ==> bytes_less(name_bytes(#[trigger] out@[q]), name_bytes(x)),
            decreases out@.len() - p,
        {
            p = p + 1;
        }
        let ghost before = out@;
        proof {
            assert forall|q: int| p <= q < before.len() implies !bytes_less(name_bytes(#[trigger] before[q]), name_bytes(x)) by {
                if q > p {
                    lemma_not_less_trans(name_bytes(x), name_bytes(before[p as int]), name_bytes(before[q]));
                }
            }
            assert forall|q: int| 0 <= q < p implies !bytes_less(name_bytes(x), name_bytes(#[trigger] before[q])) by {
                lemma_less_asym(name_bytes(before[q]), name_bytes(x));
            }
        }
        out.insert(p, x);
        proof {
            vstd::seq_lib::to_multiset_insert(before, p as int, x);
            assert(out@.to_multiset() =~= before.to_multiset().insert(x));
            vstd::seq_lib::to_multiset_build(input@, x);
            assert(before_in.to_multiset() =~= input@.to_multiset().insert(x));
            assert(out@.to_multiset().add(input@.to_multiset()) =~= before.to_multiset().add(before_in.to_multiset()));
            assert forall|a: int, b: int| 0 <= a < b < out@.len() implies !bytes_less(
                name_bytes(#[trigger] out@[b]),
                name_bytes(#[trigger] out@[a]),
            ) by {
                if a < p && b > p {
                    assert(out@[a] == before[a] && out@[b] == before[b - 1]);
                } else if a < p && b < p {
                    assert(out@[a] == before[a] && out@[b] == before[b]);
                } else if a > p {
                    assert(out@[a] == before[a - 1] && out@[b] == before[b - 1]);
                } else if a == p {
                    assert(out@[b] == before[b - 1]);
                } else {
                    assert(out@[a] == before[a]);
                }
            }
        }
    }
    assert(input@.to_multiset() =~= Multiset::empty());
    out
}

} // verus!
