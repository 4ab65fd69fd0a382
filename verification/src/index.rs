//! A hash index from string keys to the positions holding them. Lookups give
//! back exactly the positions whose key equals the probe, in listing order.

use std::collections::HashMap;

use vstd::prelude::*;

use crate::text::str_eq;

verus! {

broadcast use {vstd::std_specs::hash::group_hash_axioms, vstd::string::group_string_axioms};

/// FNV-1a over a byte sequence.
pub open spec fn fnv(b: Seq<u8>) -> u64
    decreases b.len(),
{
    if b.len() == 0 {
        0xcbf29ce484222325u64
    } else {
        (fnv(b.drop_last()) ^ (b.last() as u64)).wrapping_mul(0x100000001b3u64)
    }
}

/// The bucket key of a string: FNV-1a of its UTF-8 encoding.
pub open spec fn key_hash(s: Seq<char>) -> u64 {
    fnv(vstd::utf8::encode_utf8(s))
}

/// The character sequences of a list of string slices.
pub open spec fn views(keys: Seq<&str>) -> Seq<Seq<char>> {
    keys.map_values(|s: &str| s@)
}

/// Positions `i < k` whose key hashes to `h`, in increasing order.
pub open spec fn hashed(keys: Seq<Seq<char>>, h: u64, k: nat) -> Seq<usize>
    decreases k,
{
    if k == 0 {
        Seq::empty()
    } else {
        let prev = hashed(keys, h, (k - 1) as nat);
        if key_hash(keys[k - 1]) == h {
            prev.push((k - 1) as usize)
        } else {
            prev
        }
    }
}

/// Positions `i < k` whose key equals `key`, in increasing order.
pub open spec fn matching(keys: Seq<Seq<char>>, key: Seq<char>, k: nat) -> Seq<usize>
    decreases k,
{
    if k == 0 {
        Seq::empty()
    } else {
        let prev = matching(keys, key, (k - 1) as nat);
        if keys[k - 1] == key {
            prev.push((k - 1) as usize)
        } else {
            prev
        }
    }
}

/// The positions of `idxs` whose key equals `key`, order kept.
pub open spec fn keep_equal(keys: Seq<Seq<char>>, idxs: Seq<usize>, key: Seq<char>) -> Seq<usize>
    decreases idxs.len(),
{
    if idxs.len() == 0 {
        Seq::empty()
    } else {
        let prev = keep_equal(keys, idxs.drop_last(), key);
        if keys[idxs.last() as int] == key {
            prev.push(idxs.last())
        } else {
            prev
        }
    }
}

/// The bucket of `h` in a map of buckets (empty when absent).
pub open spec fn bucket_of(m: Map<u64, Vec<usize>>, h: u64) -> Seq<usize> {
    if m.contains_key(h) {
        m[h]@
    } else {
        Seq::empty()
    }
}

/// Every position listed by `hashed` lies below `k`.
pub proof fn lemma_hashed_bounded(keys: Seq<Seq<char>>, h: u64, k: nat)
    requires
        k <= usize::MAX + 1,
    ensures
        forall|j: int| 0 <= j < hashed(keys, h, k).len() ==> #[trigger] hashed(keys, h, k)[j] < k,
    decreases k,
{
    if k > 0 {
        lemma_hashed_bounded(keys, h, (k - 1) as nat);
        let prev = hashed(keys, h, (k - 1) as nat);
        assert forall|j: int| 0 <= j < hashed(keys, h, k).len() implies #[trigger] hashed(keys, h, k)[j] < k by {
            if j < prev.len() {
                assert(hashed(keys, h, k)[j] == prev[j]);
            }
        }
    }
}

/// Every position listed by `matching` lies below `k` and holds the key.
pub proof fn lemma_matching_members(keys: Seq<Seq<char>>, key: Seq<char>, k: nat)
    requires
        k <= usize::MAX + 1,
        k <= keys.len(),
    ensures
        forall|j: int|
            0 <= j < matching(keys, key, k).len() ==> #[trigger] matching(keys, key, k)[j] < k
                && keys[matching(keys, key, k)[j] as int] == key,
    decreases k,
{
    if k > 0 {
        lemma_matching_members(keys, key, (k - 1) as nat);
        let prev = matching(keys, key, (k - 1) as nat);
        assert forall|j: int| 0 <= j < matching(keys, key, k).len() implies #[trigger] matching(keys, key, k)[j] < k
            && keys[matching(keys, key, k)[j] as int] == key by {
            if j < prev.len() {
                assert(matching(keys, key, k)[j] == prev[j]);
            }
        }
    }
}

proof fn lemma_keep_equal(keys: Seq<Seq<char>>, key: Seq<char>, k: nat)
    requires
        k <= keys.len(),
        k <= usize::MAX + 1,
    ensures
        keep_equal(keys, hashed(keys, key_hash(key), k), key) == matching(keys, key, k),
    decreases k,
{
    if k > 0 {
        let h = key_hash(key);
        lemma_keep_equal(keys, key, (k - 1) as nat);
        let prev = hashed(keys, h, (k - 1) as nat);
        if key_hash(keys[k - 1]) == h {
            assert(hashed(keys, h, k).drop_last() =~= prev);
        } else {
            assert(keys[k - 1] != key);
        }
    }
}

/// Hash of a string's UTF-8 bytes, as the index keys it.
pub fn hash_str(s: &str) -> (h: u64)
    ensures
        h == key_hash(s@),
{
    let b = s.as_bytes();
    let mut h: u64 = 0xcbf29ce484222325;
    let mut i: usize = 0;
    while i < b.len()
        invariant
            i <= b.len(),
            b@ == vstd::utf8::encode_utf8(s@),
            h == fnv(b@.take(i as int)),
        decreases b.len() - i,
    {
        h = (h ^ (b[i] as u64)).wrapping_mul(0x100000001b3);
        i += 1;
        assert(b@.take(i as int).drop_last() =~= b@.take((i - 1) as int));
    }
    assert(b@.take(b@.len() as int) =~= b@);
    h
}

/// Buckets of positions keyed by the hash of the string at each position.
pub struct KeyIndex {
    buckets: HashMap<u64, Vec<usize>>,
}

impl KeyIndex {
    /// Whether this index lists, for every hash, the positions of `keys`
    /// with that hash.
    pub closed spec fn indexes(self, keys: Seq<Seq<char>>) -> bool {
        forall|h: u64| #[trigger] bucket_of(self.buckets@, h) == hashed(keys, h, keys.len())
    }

    /// Index the positions of `keys`.
    pub fn build(keys: &Vec<&str>) -> (r: KeyIndex)
        ensures
            r.indexes(views(keys@)),
    {
        let ghost ks = views(keys@);
        let mut m: HashMap<u64, Vec<usize>> = HashMap::new();
        let mut i: usize = 0;
        while i < keys.len()
            invariant
                i <= keys.len(),
                ks == views(keys@),
                forall|h: u64| #[trigger] bucket_of(m@, h) == hashed(ks, h, i as nat),
            decreases keys.len() - i,
        {
            let h = hash_str(keys[i]);
            assert(ks[i as int] == keys@[i as int]@);
            let ghost old_m = m@;
            assert(bucket_of(old_m, h) == hashed(ks, h, i as nat));
            let mut b = match m.remove(&h) {
                Some(v) => v,
                None => Vec::new(),
            };
            let ghost old_b = b@;
            assert(old_b == hashed(ks, h, i as nat));
            b.push(i);
            m.insert(h, b);
            proof {
                assert forall|g: u64| #[trigger] bucket_of(m@, g) == hashed(ks, g, (i + 1) as nat) by {
                    if g != h {
                        assert(bucket_of(old_m, g) == hashed(ks, g, i as nat));
                        assert(bucket_of(m@, g) == bucket_of(old_m, g));
                    }
                }
            }
            i += 1;
        }
        KeyIndex { buckets: m }
    }

    /// The positions whose key equals `key`, in increasing order.
    pub fn lookup(&self, keys: &Vec<&str>, key: &str) -> (r: Vec<usize>)
        requires
            self.indexes(views(keys@)),
        ensures
            r@ == matching(views(keys@), key@, keys@.len()),
    {
        let ghost ks = views(keys@);
        let h = hash_str(key);
        let mut out: Vec<usize> = Vec::new();
        assert(keys@.len() == keys.len());
        proof {
            lemma_keep_equal(ks, key@, keys@.len());
            lemma_hashed_bounded(ks, h, keys@.len());
            assert(bucket_of(self.buckets@, h) == hashed(ks, h, keys@.len()));
        }
        match self.buckets.get(&h) {
            Some(b) => {
                let mut j: usize = 0;
                while j < b.len()
                    invariant
                        j <= b.len(),
                        ks == views(keys@),
                        b@ == hashed(ks, h, keys@.len()),
                        forall|x: int| 0 <= x < b@.len() ==> #[trigger] b@[x] < keys@.len(),
                        out@ == keep_equal(ks, b@.take(j as int), key@),
                    decreases b.len() - j,
                {
                    let idx = b[j];
                    assert(ks[idx as int] == keys@[idx as int]@);
                    if str_eq(keys[idx], key) {
                        out.push(idx);
                    }
                    j += 1;
                    assert(b@.take(j as int).drop_last() =~= b@.take((j - 1) as int));
                }
                assert(b@.take(b@.len() as int) =~= b@);
            },
            None => {
                assert(hashed(ks, h, keys@.len()) =~= Seq::<usize>::empty());
            },
        }
        out
    }
}

} // verus!
