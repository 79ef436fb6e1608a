//! Finding values again by a numeric key: for each key, the positions
//! where it occurs, kept in a hash map.
use vstd::prelude::*;
use std::collections::HashMap;

verus! {

broadcast use vstd::std_specs::hash::group_hash_axioms;

/// A number derived from a text, for bucketing: equal texts give equal
/// numbers (distinct texts may too).
pub open spec fn text_key(s: Seq<char>) -> u64
    decreases s.len(),
{
    if s.len() == 0 {
        0
    } else {
        ((text_key(s.drop_last()) as int * 31 + (s.last() as u32) as int) % 0x1_0000_0000_0000_0000int) as u64
    }
}

/// The key of a text.
pub fn text_key_of(s: &str) -> (k: u64)
    ensures
        k == text_key(s@),
{
    text_key_chars(&crate::text::chars_of(s))
}

/// The key of a text given as characters.
pub fn text_key_chars(cs: &[char]) -> (k: u64)
    ensures
        k == text_key(cs@),
{
    let mut k: u64 = 0;
    let mut i: usize = 0;
    while i < cs.len()
        invariant
            0 <= i <= cs@.len(),
            k == text_key(cs@.take(i as int)),
        decreases cs@.len() - i,
    {
        proof {
            assert(cs@.take(i + 1).drop_last() == cs@.take(i as int));
            assert(cs@.take(i + 1).last() == cs@[i as int]);
        }
        let c: u32 = cs[i] as u32;
        k = (((k as u128) * 31 + (c as u128)) % 0x1_0000_0000_0000_0000u128) as u64;
        i = i + 1;
    }
    assert(cs@.take(cs@.len() as int) == cs@);
    k
}

/// The positions, in order, whose key is `k`.
pub open spec fn positions_of(keys: Seq<u64>, k: u64) -> Seq<usize>
    decreases keys.len(),
{
    if keys.len() == 0 {
        Seq::empty()
    } else {
        let r = positions_of(keys.drop_last(), k);
        if keys.last() == k {
            r.push((keys.len() - 1) as usize)
        } else {
            r
        }
    }
}

/// The positions of `k` are exactly the places where it occurs.
pub proof fn lemma_positions_of(keys: Seq<u64>, k: u64)
    requires
        keys.len() <= usize::MAX,
    ensures
        forall|a: int|
            0 <= a < positions_of(keys, k).len() ==> #[trigger] positions_of(keys, k)[a] < keys.len()
                && keys[positions_of(keys, k)[a] as int] == k,
        forall|t: int| 0 <= t < keys.len() && keys[t] == k ==> #[trigger] positions_of(keys, k).contains(t as usize),
    decreases keys.len(),
{
    if keys.len() > 0 {
        let init = keys.drop_last();
        lemma_positions_of(init, k);
        let p = positions_of(keys, k);
        let q = positions_of(init, k);
        assert forall|a: int| 0 <= a < p.len() implies #[trigger] p[a] < keys.len() && keys[p[a] as int] == k by {
            if a < q.len() {
                assert(p[a] == q[a]);
                assert(keys[q[a] as int] == init[q[a] as int]);
            }
        }
        assert forall|t: int| 0 <= t < keys.len() && keys[t] == k implies #[trigger] p.contains(t as usize) by {
            if t < init.len() {
                assert(init[t] == keys[t]);
                assert(q.contains(t as usize));
                let a = choose|a: int| 0 <= a < q.len() && q[a] == t as usize;
                assert(p[a] == q[a]);
            } else {
                assert(p[p.len() - 1] == t as usize);
            }
        }
    }
}

/// `m` holds, for each key, the positions where it occurs in `keys`.
pub open spec fn indexes(m: Map<u64, Vec<usize>>, keys: Seq<u64>) -> bool {
    forall|k: u64|
        #![trigger m.contains_key(k)]
        if m.contains_key(k) {
            m[k]@ == positions_of(keys, k)
        } else {
            positions_of(keys, k) == Seq::<usize>::empty()
        }
}

/// An index of no keys.
pub fn index_new() -> (m: HashMap<u64, Vec<usize>>)
    ensures
        indexes(m@, Seq::empty()),
{
    HashMap::new()
}

/// Record that the next position, `i`, holds key `k`.
pub fn index_push(m: &mut HashMap<u64, Vec<usize>>, k: u64, i: usize, Ghost(keys): Ghost<Seq<u64>>)
    requires
        indexes(old(m)@, keys),
        i == keys.len(),
    ensures
        indexes(final(m)@, keys.push(k)),
{
    let mut b: Vec<usize> = match m.remove(&k) {
        Some(v) => v,
        None => Vec::new(),
    };
    assert(keys.push(k).drop_last() == keys);
    assert(b@ == positions_of(keys, k));
    b.push(i);
    m.insert(k, b);
    assert forall|k2: u64|
        #![trigger m@.contains_key(k2)]
        if m@.contains_key(k2) {
            m@[k2]@ == positions_of(keys.push(k), k2)
        } else {
            positions_of(keys.push(k), k2) == Seq::<usize>::empty()
        } by {
        if k2 != k {
        }
    }
}

/// For each key, the positions where it occurs, in order.
pub fn bucket_positions(keys: &Vec<u64>) -> (m: HashMap<u64, Vec<usize>>)
    ensures
        indexes(m@, keys@),
{
    let mut m = index_new();
    let mut i: usize = 0;
    while i < keys.len()
        invariant
            0 <= i <= keys@.len(),
            indexes(m@, keys@.take(i as int)),
        decreases keys@.len() - i,
    {
        assert(keys@.take(i + 1) == keys@.take(i as int).push(keys@[i as int]));
        index_push(&mut m, keys[i], i, Ghost(keys@.take(i as int)));
        i = i + 1;
    }
    assert(keys@.take(keys@.len() as int) == keys@);
    m
}

/// The positions in `m` for `k`, none when `k` has none.
pub fn bucket_of(m: &HashMap<u64, Vec<usize>>, k: u64) -> (p: &[usize])
    ensures
        m@.contains_key(k) ==> p@ == m@[k]@,
        !m@.contains_key(k) ==> p@ == Seq::<usize>::empty(),
{
    match m.get(&k) {
        Some(v) => v.as_slice(),
        None => &[],
    }
}

} // verus!
