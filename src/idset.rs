//! A set of commit identifiers, hashed by their leading bytes.
use std::collections::HashMap;
use vstd::prelude::*;

verus! {

broadcast use vstd::std_specs::hash::group_hash_axioms;

/// Byte `i` of `id`, or zero past its end.
pub open spec fn byte_at(id: Seq<u8>, i: int) -> int {
    if 0 <= i < id.len() {
        id[i] as int
    } else {
        0
    }
}

/// The bucket that holds `id`: its first three bytes as a number.
pub open spec fn bucket_of(id: Seq<u8>) -> u64 {
    (byte_at(id, 0) * 65536 + byte_at(id, 1) * 256 + byte_at(id, 2)) as u64
}

/// Whether two byte strings are equal.
pub fn same_bytes(a: &Vec<u8>, b: &Vec<u8>) -> (r: bool)
    ensures
        r == (a@ == b@),
{
    if a.len() != b.len() {
        return false;
    }
    let mut i: usize = 0;
    while i < a.len()
        invariant
            a@.len() == b@.len(),
            i <= a@.len(),
            forall|j: int| 0 <= j < i ==> a@[j] == b@[j],
        decreases a@.len() - i,
    {
        if a[i] != b[i] {
            return false;
        }
        i = i + 1;
    }
    assert(a@ =~= b@);
    true
}

fn bucket_key(id: &Vec<u8>) -> (r: u64)
    ensures
        r == bucket_of(id@),
{
    let b0: u64 = if id.len() > 0 { id[0] as u64 } else { 0 };
    let b1: u64 = if id.len() > 1 { id[1] as u64 } else { 0 };
    let b2: u64 = if id.len() > 2 { id[2] as u64 } else { 0 };
    b0 * 65536 + b1 * 256 + b2
}

/// A set of byte-string identifiers.
pub struct IdSet {
    buckets: HashMap<u64, Vec<Vec<u8>>>,
}

/// Whether one of `bucket` holds the bytes `id`.
pub open spec fn bucket_holds(bucket: Seq<Vec<u8>>, id: Seq<u8>) -> bool {
    exists|j: int| 0 <= j < bucket.len() && #[trigger] bucket[j]@ == id
}

impl IdSet {
    /// Whether `id` is a member.
    pub closed spec fn has(&self, id: Seq<u8>) -> bool {
        self.buckets@.contains_key(bucket_of(id)) && bucket_holds(
            self.buckets@[bucket_of(id)]@,
            id,
        )
    }

    /// The empty set.
    pub fn new() -> (r: IdSet)
        ensures
            forall|id: Seq<u8>| !r.has(id),
    {
        IdSet { buckets: HashMap::new() }
    }

    /// Whether `id` is a member.
    pub fn contains(&self, id: &Vec<u8>) -> (r: bool)
        ensures
            r == self.has(id@),
    {
        let k = bucket_key(id);
        match self.buckets.get(&k) {
            None => false,
            Some(bucket) => {
                let mut j: usize = 0;
                while j < bucket.len()
                    invariant
                        j <= bucket@.len(),
                        k == bucket_of(id@),
                        self.buckets@.contains_key(k),
                        self.buckets@[k] == *bucket,
                        forall|i: int| 0 <= i < j ==> bucket@[i]@ != id@,
                    decreases bucket@.len() - j,
                {
                    if same_bytes(&bucket[j], id) {
                        assert(bucket@[j as int]@ == id@);
                        return true;
                    }
                    j = j + 1;
                }
                false
            },
        }
    }

    /// Adds `id`.
    pub fn insert(&mut self, id: Vec<u8>)
        ensures
            forall|x: Seq<u8>| final(self).has(x) == (old(self).has(x) || x == id@),
    {
        let k = bucket_key(&id);
        let ghost idv = id@;
        let mut bucket = match self.buckets.remove(&k) {
            Some(b) => b,
            None => Vec::new(),
        };
        let ghost before = bucket@;
        bucket.push(id);
        self.buckets.insert(k, bucket);
        assert forall|x: Seq<u8>| self.has(x) == (old(self).has(x) || x == idv) by {
            if bucket_of(x) == k {
                if bucket_holds(before, x) {
                    let j = choose|j: int| 0 <= j < before.len() && #[trigger] before[j]@ == x;
                    assert(bucket@[j]@ == x);
                }
                if x == idv {
                    assert(bucket@[before.len() as int]@ == x);
                }
                if bucket_holds(bucket@, x) && x != idv {
                    let j = choose|j: int| 0 <= j < bucket@.len() && #[trigger] bucket@[j]@ == x;
                    assert(before[j]@ == x);
                }
            }
        }
    }
}

} // verus!
