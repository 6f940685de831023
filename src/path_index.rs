use vstd::prelude::*;
use vstd::utf8::encode_utf8;
use crate::file_node::{path_view, FileNode};

verus! {

pub const HASH_OFFSET: u64 = 0xcbf2_9ce4_8422_2325;

pub const HASH_PRIME: u64 = 0x0000_0100_0000_01b3;

/// Separator mixed in before each path component.
pub const COMPONENT_MARK: u8 = 0xff;

/// One step of the FNV-1a hash.
pub open spec fn mix(h: u64, b: u8) -> u64 {
    (((h ^ (b as u64)) as nat * HASH_PRIME as nat) % 0x1_0000_0000_0000_0000nat) as u64
}

pub open spec fn hash_bytes(h: u64, b: Seq<u8>) -> u64
    decreases b.len(),
{
    if b.len() == 0 {
        h
    } else {
        mix(hash_bytes(h, b.drop_last()), b.last())
    }
}

/// The hash of a path: each component's UTF-8 bytes, each preceded by a mark.
pub open spec fn path_hash(p: Seq<Seq<char>>) -> u64
    decreases p.len(),
{
    if p.len() == 0 {
        HASH_OFFSET
    } else {
        hash_bytes(mix(path_hash(p.drop_last()), COMPONENT_MARK), encode_utf8(p.last()))
    }
}

/// The path of each node.
pub open spec fn paths_view(nodes: Seq<FileNode>) -> Seq<Seq<Seq<char>>> {
    Seq::new(nodes.len(), |i: int| path_view(nodes[i].path@))
}

fn mix_exec(h: u64, b: u8) -> (r: u64)
    ensures
        r == mix(h, b),
{
    (h ^ (b as u64)).wrapping_mul(HASH_PRIME)
}

/// The hash of the first `m` components of `path`.
pub fn hash_prefix(path: &Vec<String>, m: usize) -> (h: u64)
    requires
        m <= path@.len(),
    ensures
        h == path_hash(path_view(path@.subrange(0, m as int))),
{
    let mut h = HASH_OFFSET;
    let mut i: usize = 0;
    proof {
        assert(path_view(path@.subrange(0, 0)) =~= Seq::<Seq<char>>::empty());
    }
    while i < m
        invariant
            i <= m <= path@.len(),
            h == path_hash(path_view(path@.subrange(0, i as int))),
        decreases m - i,
    {
        let h0 = mix_exec(h, COMPONENT_MARK);
        h = h0;
        let bytes = path[i].as_str().as_bytes();
        let mut j: usize = 0;
        proof {
            assert(bytes@.subrange(0, 0) =~= Seq::<u8>::empty());
        }
        while j < bytes.len()
            invariant
                j <= bytes@.len(),
                h == hash_bytes(h0, bytes@.subrange(0, j as int)),
            decreases bytes@.len() - j,
        {
            h = mix_exec(h, bytes[j]);
            proof {
                assert(bytes@.subrange(0, j + 1).drop_last() =~= bytes@.subrange(0, j as int));
            }
            j = j + 1;
        }
        proof {
            assert(bytes@.subrange(0, j as int) =~= bytes@);
            let v = path_view(path@.subrange(0, i + 1));
            assert(v.drop_last() =~= path_view(path@.subrange(0, i as int)));
            assert(v.last() == path@[i as int]@);
        }
        i = i + 1;
    }
    h
}

/// Whether `a` has exactly the first `m` components of `b`.
pub fn path_prefix_eq(a: &Vec<String>, b: &Vec<String>, m: usize) -> (r: bool)
    requires
        m <= b@.len(),
    ensures
        r == (path_view(a@) == path_view(b@.subrange(0, m as int))),
{
    if a.len() != m {
        proof {
            assert(path_view(a@).len() != path_view(b@.subrange(0, m as int)).len());
        }
        return false;
    }
    let mut i: usize = 0;
    while i < m
        invariant
            i <= m <= b@.len(),
            a@.len() == m,
            forall|q: int| 0 <= q < i ==> a@[q]@ == b@[q]@,
        decreases m - i,
    {
        if a[i] != b[i] {
            proof {
                assert(path_view(a@)[i as int] != path_view(b@.subrange(0, m as int))[i as int]);
            }
            return false;
        }
        i = i + 1;
    }
    proof {
        assert(path_view(a@) =~= path_view(b@.subrange(0, m as int)));
    }
    true
}

/// Nodes grouped by the hash of their path.
pub struct PathIndex {
    pub buckets: Vec<Vec<usize>>,
}

impl PathIndex {
    pub open spec fn bucket_of(self, p: Seq<Seq<char>>) -> int {
        (path_hash(p) as int) % (self.buckets@.len() as int)
    }

    /// Every node of `d` is found in the bucket of its path, and every bucket
    /// holds nodes of `d` only.
    pub open spec fn indexes(self, d: Seq<Seq<Seq<char>>>) -> bool {
        &&& self.buckets@.len() > 0
        &&& d.len() <= usize::MAX
        &&& forall|b: int, q: int|
            0 <= b < self.buckets@.len() && 0 <= q < self.buckets@[b]@.len() ==> #[trigger] self.buckets@[b]@[q]
                < d.len()
        &&& forall|i: int|
            0 <= i < d.len() ==> self.buckets@[self.bucket_of(#[trigger] d[i])]@.contains(i as usize)
    }

    pub fn new(capacity: usize) -> (r: PathIndex)
        ensures
            r.indexes(Seq::empty()),
    {
        let n = if capacity == 0 {
            1
        } else {
            capacity
        };
        let mut buckets: Vec<Vec<usize>> = Vec::new();
        let mut i: usize = 0;
        while i < n
            invariant
                i <= n,
                buckets@.len() == i,
                forall|b: int| 0 <= b < i ==> (#[trigger] buckets@[b])@.len() == 0,
            decreases n - i,
        {
            buckets.push(Vec::new());
            i = i + 1;
        }
        PathIndex { buckets }
    }

    fn bucket_index(&self, h: u64) -> (b: usize)
        requires
            self.buckets@.len() > 0,
        ensures
            b as int == (h as int) % (self.buckets@.len() as int),
    {
        (h % (self.buckets.len() as u64)) as usize
    }

    /// Files the node with index `id` and path `path`.
    pub(crate) fn insert(&mut self, d: Ghost<Seq<Seq<Seq<char>>>>, path: &Vec<String>, id: usize)
        requires
            old(self).indexes(d@),
            id == d@.len(),
            id < usize::MAX,
        ensures
            final(self).indexes(d@.push(path_view(path@))),
    {
        let h = hash_prefix(path, path.len());
        proof {
            assert(path@.subrange(0, path@.len() as int) =~= path@);
        }
        let b = self.bucket_index(h);
        let ghost old_buckets = self.buckets@;
        self.buckets[b].push(id);
        proof {
            let d2 = d@.push(path_view(path@));
            assert forall|bb: int, q: int|
                0 <= bb < self.buckets@.len() && 0 <= q < self.buckets@[bb]@.len() implies #[trigger] self.buckets@[bb]@[q]
                < d2.len() by {
                if bb != b || q < old_buckets[bb]@.len() {
                    assert(self.buckets@[bb]@[q] == old_buckets[bb]@[q]);
                }
            }
            assert forall|i: int| 0 <= i < d2.len() implies self.buckets@[self.bucket_of(
                #[trigger] d2[i],
            )]@.contains(i as usize) by {
                if i < d@.len() {
                    assert(d2[i] == d@[i]);
                    let bb = self.bucket_of(d2[i]);
                    let q = choose|q: int| 0 <= q < old_buckets[bb]@.len() && old_buckets[bb]@[q] == i as usize;
                    assert(self.buckets@[bb]@[q] == i as usize);
                } else {
                    assert(self.buckets@[b as int]@.last() == id);
                }
            }
        }
    }

    proof fn lemma_absent(self, d: Seq<Seq<Seq<char>>>, want: Seq<Seq<char>>)
        requires
            self.indexes(d),
            forall|p: int|
                0 <= p < self.buckets@[self.bucket_of(want)]@.len() ==> d[self.buckets@[self.bucket_of(
                    want,
                )]@[p] as int] != want,
        ensures
            forall|i: int| 0 <= i < d.len() ==> #[trigger] d[i] != want,
    {
        let bucket = self.buckets@[self.bucket_of(want)]@;
        assert forall|i: int| 0 <= i < d.len() implies #[trigger] d[i] != want by {
            if d[i] == want {
                assert(bucket.contains(i as usize));
                let p = choose|p: int| 0 <= p < bucket.len() && bucket[p] == i as usize;
                assert(d[bucket[p] as int] != want);
            }
        }
    }

    /// Finds the node whose path is the first `m` components of `path`.
    pub fn find(&self, nodes: &Vec<FileNode>, path: &Vec<String>, m: usize) -> (r: Option<usize>)
        requires
            self.indexes(paths_view(nodes@)),
            m <= path@.len(),
        ensures
            r matches Some(i) ==> i < nodes@.len() && path_view(nodes@[i as int].path@) == path_view(
                path@.subrange(0, m as int),
            ),
            r is None ==> forall|i: int|
                0 <= i < nodes@.len() ==> path_view(#[trigger] nodes@[i].path@) != path_view(
                    path@.subrange(0, m as int),
                ),
    {
        let ghost d = paths_view(nodes@);
        let ghost want = path_view(path@.subrange(0, m as int));
        let h = hash_prefix(path, m);
        let b = self.bucket_index(h);
        let bucket = &self.buckets[b];
        let mut q: usize = 0;
        while q < bucket.len()
            invariant
                self.indexes(d),
                d == paths_view(nodes@),
                want == path_view(path@.subrange(0, m as int)),
                m <= path@.len(),
                b < self.buckets@.len(),
                b as int == self.bucket_of(want),
                *bucket == self.buckets@[b as int],
                q <= bucket@.len(),
                forall|p: int| 0 <= p < q ==> d[bucket@[p] as int] != want,
            decreases bucket@.len() - q,
        {
            let i = bucket[q];
            proof {
                assert(i < d.len());
            }
            if path_prefix_eq(&nodes[i].path, path, m) {
                return Some(i);
            }
            q = q + 1;
        }
        proof {
            self.lemma_absent(d, want);
            assert forall|i: int| 0 <= i < nodes@.len() implies path_view(#[trigger] nodes@[i].path@) != want by {
                assert(d[i] == path_view(nodes@[i].path@));
            }
        }
        None
    }
}

} // verus!
