//! Finding byte-identical files.
use std::collections::HashMap;
use vstd::prelude::*;

use crate::index::{
    bucket_of, bucket_positions, indexes, lemma_positions_of, positions_of, text_key, text_key_of,
};
use crate::order::{sort_by_order, views_of, Ordered};
use crate::text::{
    lemma_lex_asymmetric, lemma_lex_irreflexive, lemma_lex_total, lemma_lex_transitive, lex_less,
    lex_lt,
};
use crate::walk::{Entry, EntryView};

verus! {

/// A set of files with identical content.
#[derive(Debug)]
pub struct Group {
    pub hash: String,
    pub size: u64,
    pub paths: Vec<String>,
}

pub struct GroupView {
    pub hash: Seq<char>,
    pub size: u64,
    pub paths: Seq<Seq<char>>,
}

pub open spec fn string_views(v: Seq<String>) -> Seq<Seq<char>> {
    Seq::new(v.len(), |i: int| v[i]@)
}

impl View for Group {
    type V = GroupView;

    open spec fn view(&self) -> GroupView {
        GroupView { hash: self.hash@, size: self.size, paths: string_views(self.paths@) }
    }
}

broadcast use vstd::std_specs::hash::group_hash_axioms;

/// Bytes read from each end of a file for the cheap second-tier hash.
pub const EDGE: u64 = 65536;

/// How many entries have this size.
pub open spec fn count_size(es: Seq<EntryView>, size: u64) -> nat
    decreases es.len(),
{
    if es.len() == 0 {
        0
    } else {
        count_size(es.drop_last(), size) + if es.last().size == size { 1nat } else { 0nat }
    }
}

/// The entries of `es`, in order, that are non-empty and share their size
/// with another entry of `all`.
pub open spec fn sized_alike(es: Seq<EntryView>, all: Seq<EntryView>) -> Seq<EntryView>
    decreases es.len(),
{
    if es.len() == 0 {
        Seq::empty()
    } else {
        let r = sized_alike(es.drop_last(), all);
        if es.last().size > 0 && count_size(all, es.last().size) >= 2 {
            r.push(es.last())
        } else {
            r
        }
    }
}

pub open spec fn entry_views(es: Seq<Entry>) -> Seq<EntryView> {
    Seq::new(es.len(), |i: int| es[i]@)
}

proof fn lemma_count_size_bound(es: Seq<EntryView>, size: u64)
    ensures
        count_size(es, size) <= es.len(),
    decreases es.len(),
{
    if es.len() > 0 {
        lemma_count_size_bound(es.drop_last(), size);
    }
}

/// An entry counts toward its own size.
proof fn lemma_count_one(es: Seq<EntryView>, i: int)
    requires
        0 <= i < es.len(),
    ensures
        count_size(es, es[i].size) >= 1,
    decreases es.len(),
{
    if i < es.len() - 1 {
        assert(es.drop_last()[i] == es[i]);
        lemma_count_one(es.drop_last(), i);
    }
}

/// Two different entries of one size make that size's count at least two.
proof fn lemma_count_two(es: Seq<EntryView>, i: int, j: int)
    requires
        0 <= i < j < es.len(),
        es[i].size == es[j].size,
    ensures
        count_size(es, es[i].size) >= 2,
    decreases es.len(),
{
    let init = es.drop_last();
    assert(init[i] == es[i]);
    if j == es.len() - 1 {
        lemma_count_one(init, i);
    } else {
        assert(init[j] == es[j]);
        lemma_count_two(init, i, j);
    }
}

/// An entry whose count qualifies is among what `sized_alike` keeps.
proof fn lemma_sized_alike_keeps(es: Seq<EntryView>, all: Seq<EntryView>, i: int)
    requires
        0 <= i < es.len(),
        es[i].size > 0,
        count_size(all, es[i].size) >= 2,
    ensures
        sized_alike(es, all).contains(es[i]),
    decreases es.len(),
{
    let init = es.drop_last();
    let r = sized_alike(init, all);
    if i == es.len() - 1 {
        assert(sized_alike(es, all) == r.push(es.last()));
        assert(sized_alike(es, all)[r.len() as int] == es[i]);
    } else {
        assert(init[i] == es[i]);
        lemma_sized_alike_keeps(init, all, i);
        let k = choose|k: int| 0 <= k < r.len() && r[k] == es[i];
        if sized_alike(es, all) != r {
            assert(sized_alike(es, all) == r.push(es.last()));
            assert(sized_alike(es, all)[k] == r[k]);
        }
    }
}

/// What `sized_alike` keeps comes from its input and is not empty.
proof fn lemma_sized_alike_from(es: Seq<EntryView>, all: Seq<EntryView>)
    ensures
        forall|k: int| 0 <= k < sized_alike(es, all).len() ==> es.contains(#[trigger] sized_alike(es, all)[k])
            && sized_alike(es, all)[k].size > 0,
    decreases es.len(),
{
    if es.len() > 0 {
        let init = es.drop_last();
        lemma_sized_alike_from(init, all);
        let r = sized_alike(init, all);
        let out = sized_alike(es, all);
        assert forall|k: int| 0 <= k < out.len() implies es.contains(#[trigger] out[k]) && out[k].size > 0 by {
            if k < r.len() {
                assert(out[k] == r[k]);
                let w = choose|w: int| 0 <= w < init.len() && init[w] == r[k];
                assert(es[w] == init[w]);
            } else {
                assert(out[k] == es.last());
                assert(es[es.len() - 1] == es.last());
            }
        }
    }
}

/// Tier one drops only what cannot have a duplicate: every non-empty file
/// whose size at least one other file shares is a candidate, however many
/// files share that size; and every candidate is a non-empty scanned file.
pub proof fn lemma_size_candidates_complete(all: Seq<EntryView>, i: int, j: int)
    requires
        0 <= i < all.len(),
        0 <= j < all.len(),
        i != j,
        all[i].size == all[j].size,
        all[i].size > 0,
    ensures
        sized_alike(all, all).contains(all[i]),
        forall|k: int| 0 <= k < sized_alike(all, all).len()
            ==> all.contains(#[trigger] sized_alike(all, all)[k]) && sized_alike(all, all)[k].size > 0,
{
    if i < j {
        lemma_count_two(all, i, j);
    } else {
        lemma_count_two(all, j, i);
    }
    lemma_sized_alike_keeps(all, all, i);
    lemma_sized_alike_from(all, all);
}

/// Tier one: only files that are not empty and whose size some other file
/// shares can have a duplicate. Most candidates die here for free.
pub fn size_candidates(entries: &Vec<Entry>) -> (c: Vec<Entry>)
    ensures
        entry_views(c@) == sized_alike(entry_views(entries@), entry_views(entries@)),
{
    let ghost es = entry_views(entries@);
    let mut counts: HashMap<u64, usize> = HashMap::new();
    let mut i: usize = 0;
    while i < entries.len()
        invariant
            0 <= i <= entries@.len(),
            es == entry_views(entries@),
            forall|sz: u64|
                #![trigger counts@.contains_key(sz)]
                if counts@.contains_key(sz) {
                    counts@[sz] == count_size(es.take(i as int), sz)
                } else {
                    count_size(es.take(i as int), sz) == 0
                },
        decreases entries@.len() - i,
    {
        let sz = entries[i].size;
        proof {
            assert(es.take(i + 1).drop_last() == es.take(i as int));
            assert(es.take(i + 1).last() == entries@[i as int]@);
            lemma_count_size_bound(es.take(i as int), sz);
        }
        let c: usize = match counts.get(&sz) {
            Some(c) => *c,
            None => 0,
        };
        assert(c == count_size(es.take(i as int), sz));
        counts.insert(sz, c + 1);
        proof {
            assert forall|s2: u64| #![trigger counts@.contains_key(s2)]
                if counts@.contains_key(s2) {
                    counts@[s2] == count_size(es.take(i + 1), s2)
                } else {
                    count_size(es.take(i + 1), s2) == 0
                } by {
                if s2 != sz {
                }
            }
        }
        i = i + 1;
    }
    assert(es.take(entries@.len() as int) == es);
    let mut out: Vec<Entry> = Vec::new();
    let mut k: usize = 0;
    while k < entries.len()
        invariant
            0 <= k <= entries@.len(),
            es == entry_views(entries@),
            forall|sz: u64|
                #![trigger counts@.contains_key(sz)]
                if counts@.contains_key(sz) {
                    counts@[sz] == count_size(es, sz)
                } else {
                    count_size(es, sz) == 0
                },
            entry_views(out@) == sized_alike(es.take(k as int), es),
        decreases entries@.len() - k,
    {
        let e = &entries[k];
        proof {
            assert(es.take(k + 1).drop_last() == es.take(k as int));
            assert(es.take(k + 1).last() == e@);
        }
        let shared = match counts.get(&e.size) {
            Some(c) => *c >= 2,
            None => false,
        };
        if e.size > 0 && shared {
            let ghost o = out@;
            out.push(e.duplicate());
            assert(entry_views(out@) == entry_views(o).push(e@));
        }
        k = k + 1;
    }
    assert(es.take(entries@.len() as int) == es);
    out
}

/// The BLAKE3 hash of a byte string. A function of the bytes alone.
pub uninterp spec fn blake3_digest(data: Seq<u8>) -> Seq<u8>;

/// `blake3::hash`, as its 32 bytes.
///
/// Trusted: the result is `blake3_digest` of the input and is 32 bytes long
/// (`blake3::OUT_LEN`).
#[verifier::external_body]
fn blake3_hash(data: &[u8]) -> (h: Vec<u8>)
    ensures
        h@ == blake3_digest(data@),
        h@.len() == 32,
{
    blake3::hash(data).as_bytes().to_vec()
}

#[verifier::external_type_specification]
#[verifier::external_body]
pub struct ExHasher(blake3::Hasher);

/// The bytes fed to a BLAKE3 hasher so far, in order.
pub uninterp spec fn fed(h: blake3::Hasher) -> Seq<u8>;

/// `blake3::Hasher::new`.
///
/// Trusted: a new hasher has been fed nothing.
#[verifier::external_body]
fn hasher_new() -> (h: blake3::Hasher)
    ensures
        fed(h) == Seq::<u8>::empty(),
{
    blake3::Hasher::new()
}

/// `blake3::Hasher::update`.
///
/// Trusted: the chunk is appended to what the hasher has been fed.
#[verifier::external_body]
fn hasher_update(h: &mut blake3::Hasher, chunk: &[u8])
    ensures
        fed(*final(h)) == fed(*old(h)) + chunk@,
{
    h.update(chunk);
}

/// `blake3::Hasher::finalize`, as its 32 bytes.
///
/// Trusted: the result is the BLAKE3 hash of everything fed so far, the same
/// as `blake3::hash` of those bytes at once (the crate documents that
/// incremental and one-shot hashing agree). `finalize` asserts that no input
/// offset was set; hashers here come only from `hasher_new`, which sets none.
#[verifier::external_body]
fn hasher_digest(h: &blake3::Hasher) -> (d: Vec<u8>)
    ensures
        d@ == blake3_digest(fed(*h)),
        d@.len() == 32,
{
    h.finalize().as_bytes().to_vec()
}

/// The lowercase hexadecimal digit for `d < 16`.
pub open spec fn hex_digit(d: nat) -> char {
    if d < 10 {
        ((d + 48) as u32) as char
    } else {
        ((d + 87) as u32) as char
    }
}

/// Bytes in lowercase hexadecimal, two digits each, most significant first.
pub open spec fn hex_of(bs: Seq<u8>) -> Seq<char>
    decreases bs.len(),
{
    if bs.len() == 0 {
        Seq::empty()
    } else {
        hex_of(bs.drop_last()) + seq![hex_digit(bs.last() as nat / 16), hex_digit(bs.last() as nat % 16)]
    }
}

fn hex_digit_char(d: u8) -> (c: char)
    requires
        d < 16,
    ensures
        c == hex_digit(d as nat),
{
    if d < 10 {
        (d + 48) as char
    } else {
        (d + 87) as char
    }
}

fn hex_string(bs: &[u8]) -> (s: String)
    ensures
        s@ == hex_of(bs@),
{
    let mut out: Vec<char> = Vec::new();
    let mut i: usize = 0;
    while i < bs.len()
        invariant
            0 <= i <= bs@.len(),
            out@ == hex_of(bs@.take(i as int)),
        decreases bs@.len() - i,
    {
        proof {
            assert(bs@.take(i + 1).drop_last() == bs@.take(i as int));
            assert(bs@.take(i + 1).last() == bs@[i as int]);
        }
        let b = bs[i];
        out.push(hex_digit_char(b / 16));
        out.push(hex_digit_char(b % 16));
        i = i + 1;
    }
    assert(bs@.take(bs@.len() as int) == bs@);
    crate::text::string_of(&out)
}

/// The hash a file is grouped by: BLAKE3 of its whole content, in hex.
pub open spec fn content_hash(content: Seq<u8>) -> Seq<char> {
    hex_of(blake3_digest(content))
}

/// A file's content being hashed, fed in chunks as it is read.
pub struct ContentHasher {
    h: blake3::Hasher,
}

impl View for ContentHasher {
    type V = Seq<u8>;

    closed spec fn view(&self) -> Seq<u8> {
        fed(self.h)
    }
}

impl ContentHasher {
    /// Nothing fed yet.
    pub fn new() -> (c: ContentHasher)
        ensures
            c@ == Seq::<u8>::empty(),
    {
        ContentHasher { h: hasher_new() }
    }

    /// Feed the next chunk of the content.
    pub fn update(&mut self, chunk: &[u8])
        ensures
            final(self)@ == old(self)@ + chunk@,
    {
        hasher_update(&mut self.h, chunk);
    }

    /// The hash of everything fed so far.
    pub fn hex(&self) -> (s: String)
        ensures
            s@ == content_hash(self@),
    {
        let d = hasher_digest(&self.h);
        hex_string(d.as_slice())
    }
}

/// How much of a file the tier-two hash reads: its first `EDGE` bytes (all
/// of it when shorter) and, only when the file is longer than two `EDGE`s,
/// its last `EDGE` bytes as well.
pub fn edge_plan(size: u64) -> (p: (usize, bool))
    ensures
        p.0 as int == (if size < EDGE { size as int } else { EDGE as int }),
        p.1 == (size > 2 * EDGE),
{
    let head: usize = if size < EDGE { size as usize } else { EDGE as usize };
    (head, size > 2 * EDGE)
}

/// The tier-two hash: BLAKE3 over the head bytes followed by the tail bytes
/// (hashing them one after the other into one hasher is hashing their
/// concatenation).
pub fn edge_digest(head: &[u8], tail: Option<&[u8]>) -> (d: Vec<u8>)
    ensures
        d@ == blake3_digest(
            match tail {
                Some(t) => head@ + t@,
                None => head@,
            },
        ),
        d@.len() == 32,
{
    let mut all: Vec<u8> = Vec::new();
    append_bytes(&mut all, head);
    match tail {
        Some(t) => append_bytes(&mut all, t),
        None => {},
    }
    blake3_hash(&all)
}

fn append_bytes(out: &mut Vec<u8>, s: &[u8])
    ensures
        final(out)@ == old(out)@ + s@,
{
    let mut i: usize = 0;
    while i < s.len()
        invariant
            0 <= i <= s@.len(),
            out@ == old(out)@ + s@.take(i as int),
        decreases s@.len() - i,
    {
        out.push(s[i]);
        i = i + 1;
        assert(s@.take(i as int) == s@.take(i - 1).push(s@[i - 1]));
    }
    assert(s@.take(s@.len() as int) == s@);
}

fn bytes_eq(a: &[u8], b: &[u8]) -> (r: bool)
    ensures
        r == (a@ == b@),
{
    if a.len() != b.len() {
        return false;
    }
    let mut i: usize = 0;
    while i < a.len()
        invariant
            0 <= i <= a@.len(),
            a@.len() == b@.len(),
            forall|j: int| 0 <= j < i ==> a@[j] == b@[j],
        decreases a@.len() - i,
    {
        if a[i] != b[i] {
            return false;
        }
        i = i + 1;
    }
    assert(a@ =~= b@);
    true
}

/// A file with its tier-two hash.
pub struct Edged {
    pub entry: Entry,
    pub digest: Vec<u8>,
}

pub struct EdgedView {
    pub entry: EntryView,
    pub digest: Seq<u8>,
}

impl View for Edged {
    type V = EdgedView;

    open spec fn view(&self) -> EdgedView {
        EdgedView { entry: self.entry@, digest: self.digest@ }
    }
}

pub open spec fn edged_views(xs: Seq<Edged>) -> Seq<EdgedView> {
    Seq::new(xs.len(), |i: int| xs[i]@)
}

/// How many hashed files have this size and tier-two hash.
pub open spec fn count_edge(xs: Seq<EdgedView>, size: u64, digest: Seq<u8>) -> nat
    decreases xs.len(),
{
    if xs.len() == 0 {
        0
    } else {
        count_edge(xs.drop_last(), size, digest) + if xs.last().entry.size == size
            && xs.last().digest == digest { 1nat } else { 0nat }
    }
}

/// The files of `xs`, in order, whose size and tier-two hash some other file
/// of `all` shares.
pub open spec fn edged_alike(xs: Seq<EdgedView>, all: Seq<EdgedView>) -> Seq<EntryView>
    decreases xs.len(),
{
    if xs.len() == 0 {
        Seq::empty()
    } else {
        let r = edged_alike(xs.drop_last(), all);
        if count_edge(all, xs.last().entry.size, xs.last().digest) >= 2 {
            r.push(xs.last().entry)
        } else {
            r
        }
    }
}

/// How many of the files at positions `ps` have this size and tier-two hash.
pub open spec fn count_edge_at(xs: Seq<EdgedView>, ps: Seq<usize>, size: u64, digest: Seq<u8>) -> nat
    decreases ps.len(),
{
    if ps.len() == 0 {
        0
    } else {
        count_edge_at(xs, ps.drop_last(), size, digest) + if xs[ps.last() as int].entry.size == size
            && xs[ps.last() as int].digest == digest { 1nat } else { 0nat }
    }
}

pub open spec fn edge_sizes(xs: Seq<EdgedView>) -> Seq<u64> {
    Seq::new(xs.len(), |i: int| xs[i].entry.size)
}

/// Counting over the files of one size counts every file with that size and
/// hash.
proof fn lemma_count_edge_by_size(xs: Seq<EdgedView>, size: u64, digest: Seq<u8>, m: int)
    requires
        0 <= m <= xs.len(),
        xs.len() <= usize::MAX,
    ensures
        count_edge(xs.take(m), size, digest) == count_edge_at(
            xs,
            positions_of(edge_sizes(xs).take(m), size),
            size,
            digest,
        ),
    decreases m,
{
    if m > 0 {
        lemma_count_edge_by_size(xs, size, digest, m - 1);
        assert(xs.take(m).drop_last() == xs.take(m - 1));
        assert(xs.take(m).last() == xs[m - 1]);
        let ks = edge_sizes(xs).take(m);
        assert(ks.drop_last() == edge_sizes(xs).take(m - 1));
        assert(ks.last() == xs[m - 1].entry.size);
        if ks.last() == size {
            let p = positions_of(ks, size);
            assert(p.drop_last() == positions_of(ks.drop_last(), size));
            assert(p.last() == (m - 1) as usize);
        }
    } else {
        assert(xs.take(0).len() == 0);
        assert(edge_sizes(xs).take(0).len() == 0);
    }
}

/// Tier two: only files whose size and head-and-tail hash another file
/// shares survive to be hashed in full.
pub fn edge_survivors(xs: &Vec<Edged>) -> (c: Vec<Entry>)
    ensures
        entry_views(c@) == edged_alike(edged_views(xs@), edged_views(xs@)),
{
    let ghost all = edged_views(xs@);
    let mut sizes: Vec<u64> = Vec::new();
    let mut i: usize = 0;
    while i < xs.len()
        invariant
            0 <= i <= xs@.len(),
            all == edged_views(xs@),
            sizes@ == edge_sizes(all).take(i as int),
        decreases xs@.len() - i,
    {
        sizes.push(xs[i].entry.size);
        i = i + 1;
        assert(sizes@ =~= edge_sizes(all).take(i as int));
    }
    assert(sizes@ =~= edge_sizes(all));
    let buckets = bucket_positions(&sizes);
    let mut out: Vec<Entry> = Vec::new();
    let mut k: usize = 0;
    while k < xs.len()
        invariant
            0 <= k <= xs@.len(),
            all == edged_views(xs@),
            sizes@ == edge_sizes(all),
            indexes(buckets@, sizes@),
            entry_views(out@) == edged_alike(all.take(k as int), all),
        decreases xs@.len() - k,
    {
        let x = &xs[k];
        proof {
            assert(all.take(k + 1).drop_last() == all.take(k as int));
            assert(all.take(k + 1).last() == x@);
        }
        let ps = bucket_of(&buckets, x.entry.size);
        let ghost pv = positions_of(sizes@, x.entry.size);
        assert(buckets@.contains_key(x.entry.size) || !buckets@.contains_key(x.entry.size));
        assert(ps@ == pv);
        proof {
            lemma_positions_of(sizes@, x.entry.size);
            lemma_count_edge_by_size(all, x.entry.size, x.digest@, all.len() as int);
            assert(all.take(all.len() as int) == all);
            assert(edge_sizes(all).take(all.len() as int) == edge_sizes(all));
        }
        let mut n: usize = 0;
        let mut j: usize = 0;
        while j < ps.len()
            invariant
                0 <= j <= ps@.len(),
                all == edged_views(xs@),
                ps@ == pv,
                forall|a: int| 0 <= a < pv.len() ==> #[trigger] pv[a] < xs@.len(),
                n == count_edge_at(all, pv.take(j as int), x.entry.size, x.digest@),
                n <= j,
            decreases ps@.len() - j,
        {
            let p = ps[j];
            assert(pv[j as int] < xs@.len());
            proof {
                assert(pv.take(j + 1).drop_last() == pv.take(j as int));
                assert(pv.take(j + 1).last() == p);
                assert(all[p as int] == xs@[p as int]@);
            }
            if xs[p].entry.size == x.entry.size && bytes_eq(&xs[p].digest, &x.digest) {
                n = n + 1;
            }
            j = j + 1;
        }
        assert(pv.take(pv.len() as int) == pv);
        if n >= 2 {
            let ghost o = out@;
            out.push(x.entry.duplicate());
            assert(entry_views(out@) == entry_views(o).push(x@.entry));
        }
        k = k + 1;
    }
    assert(all.take(xs@.len() as int) == all);
    out
}

/// Paths in order: none comes before one listed ahead of it.
pub open spec fn paths_sorted(ps: Seq<Seq<char>>) -> bool {
    forall|i: int, j: int| 0 <= i < j < ps.len() ==> !lex_lt(#[trigger] ps[j], #[trigger] ps[i])
}

/// Put paths in lexicographic order.
pub fn sort_paths(v: Vec<String>) -> (r: Vec<String>)
    ensures
        string_views(r@).to_multiset() == string_views(v@).to_multiset(),
        paths_sorted(string_views(r@)),
{
    assert(views_of(v@) =~= string_views(v@));
    let r = sort_by_order(v);
    assert(views_of(r@) =~= string_views(r@));
    r
}

/// The bytes a group's extra copies waste.
pub open spec fn wasted(g: GroupView) -> int {
    g.size * (g.paths.len() - 1)
}

/// Largest wasted space first, that being the order a human wants to read
/// them in; equal waste in order of content hash, so the order never depends on
/// anything but the content.
pub open spec fn group_before(a: GroupView, b: GroupView) -> bool {
    wasted(a) > wasted(b) || (wasted(a) == wasted(b) && lex_lt(a.hash, b.hash))
}

pub open spec fn groups_sorted(gs: Seq<GroupView>) -> bool {
    forall|i: int, j: int| 0 <= i < j < gs.len() ==> !group_before(#[trigger] gs[j], #[trigger] gs[i])
}

pub open spec fn group_views(gs: Seq<Group>) -> Seq<GroupView> {
    Seq::new(gs.len(), |i: int| gs[i]@)
}

fn waste_of(g: &Group) -> (w: u128)
    requires
        g.paths@.len() >= 1,
    ensures
        w == wasted(g@),
{
    let extra = (g.paths.len() - 1) as u128;
    assert((g.size as u128) * extra <= u128::MAX) by (nonlinear_arith)
        requires g.size <= u64::MAX, extra <= u64::MAX;
    (g.size as u128) * extra
}

fn before(a: &Group, b: &Group) -> (r: bool)
    requires
        a.paths@.len() >= 1,
        b.paths@.len() >= 1,
    ensures
        r == group_before(a@, b@),
{
    let wa = waste_of(a);
    let wb = waste_of(b);
    if wa > wb {
        true
    } else if wa == wb {
        lex_less(&crate::text::chars_of(a.hash.as_str()), &crate::text::chars_of(b.hash.as_str()))
    } else {
        false
    }
}

/// Groups are put in report order.
impl Ordered for Group {
    open spec fn leq(a: GroupView, b: GroupView) -> bool {
        !group_before(b, a)
    }

    open spec fn comparable(a: GroupView) -> bool {
        a.paths.len() >= 1
    }

    fn leq_exec(&self, other: &Self) -> (r: bool) {
        !before(other, self)
    }

    proof fn lemma_total(a: GroupView, b: GroupView) {
        if group_before(b, a) && group_before(a, b) {
            lemma_lex_asymmetric(b.hash, a.hash);
        }
    }

    proof fn lemma_transitive(a: GroupView, b: GroupView, c: GroupView) {
        if group_before(c, a) {
            if group_before(b, a) {
            } else if group_before(c, b) {
            } else {
                if wasted(a) == wasted(b) && wasted(b) == wasted(c) {
                    if a.hash != b.hash {
                        lemma_lex_total(a.hash, b.hash);
                    }
                    if b.hash != c.hash {
                        lemma_lex_total(b.hash, c.hash);
                    }
                    if a.hash != b.hash && b.hash != c.hash {
                        lemma_lex_transitive(a.hash, b.hash, c.hash);
                    }
                    lemma_lex_asymmetric(c.hash, a.hash);
                    lemma_lex_irreflexive(a.hash);
                }
            }
        }
    }
}

/// Put groups in report order.
pub fn sort_groups(v: Vec<Group>) -> (r: Vec<Group>)
    requires
        forall|i: int| 0 <= i < v@.len() ==> (#[trigger] v@[i]).paths@.len() >= 1,
    ensures
        group_views(r@).to_multiset() == group_views(v@).to_multiset(),
        groups_sorted(group_views(r@)),
{
    assert(views_of(v@) =~= group_views(v@));
    assert forall|i: int| 0 <= i < views_of(v@).len() implies Group::comparable(#[trigger] views_of(v@)[i]) by {
        assert(views_of(v@)[i] == v@[i]@);
    }
    let r = sort_by_order(v);
    assert(views_of(r@) =~= group_views(r@));
    r
}

/// A file with its full-content hash (tier three). The hash is always that
/// of the content the file was read as.
pub struct Hashed {
    hash: String,
    entry: Entry,
    content: Ghost<Seq<u8>>,
}

pub struct HashedView {
    pub hash: Seq<char>,
    pub entry: EntryView,
    pub content: Seq<u8>,
}

impl View for Hashed {
    type V = HashedView;

    closed spec fn view(&self) -> HashedView {
        HashedView { hash: self.hash@, entry: self.entry@, content: self.content@ }
    }
}

impl Hashed {
    #[verifier::type_invariant]
    spec fn hash_is_of_content(self) -> bool {
        self.hash@ == content_hash(self.content@)
    }

    /// A file, with the hash of the content fed to `content`.
    pub fn new(entry: Entry, content: &ContentHasher) -> (h: Hashed)
        ensures
            h@.entry == entry@,
            h@.content == content@,
            h@.hash == content_hash(content@),
    {
        Hashed { hash: content.hex(), entry, content: Ghost(content@) }
    }

    /// The content hash.
    pub fn hash(&self) -> (h: &str)
        ensures
            h@ == self@.hash,
    {
        self.hash.as_str()
    }

    /// The file.
    pub fn entry(&self) -> (e: &Entry)
        ensures
            e@ == self@.entry,
    {
        &self.entry
    }
}

/// Every file's hash is the hash of its content.
pub open spec fn hashes_from_contents(xs: Seq<HashedView>) -> bool {
    forall|k: int| 0 <= k < xs.len() ==> (#[trigger] xs[k]).hash == content_hash(xs[k].content)
}

pub open spec fn hashed_views(xs: Seq<Hashed>) -> Seq<HashedView> {
    Seq::new(xs.len(), |i: int| xs[i]@)
}

/// How many hashed files carry this hash.
pub open spec fn count_hash(xs: Seq<HashedView>, h: Seq<char>) -> nat
    decreases xs.len(),
{
    if xs.len() == 0 {
        0
    } else {
        count_hash(xs.drop_last(), h) + if xs.last().hash == h { 1nat } else { 0nat }
    }
}

/// The paths of the files carrying this hash, in the order they came.
pub open spec fn paths_with(xs: Seq<HashedView>, h: Seq<char>) -> Seq<Seq<char>>
    decreases xs.len(),
{
    if xs.len() == 0 {
        Seq::empty()
    } else {
        let r = paths_with(xs.drop_last(), h);
        if xs.last().hash == h {
            r.push(xs.last().entry.path)
        } else {
            r
        }
    }
}

/// Where this hash first occurs (`-1` when it does not).
pub open spec fn first_index(xs: Seq<HashedView>, h: Seq<char>) -> int
    decreases xs.len(),
{
    if xs.len() == 0 {
        -1
    } else {
        let r = first_index(xs.drop_last(), h);
        if r >= 0 {
            r
        } else if xs.last().hash == h {
            xs.len() - 1
        } else {
            -1
        }
    }
}

/// `g` is the duplicate group of its hash among `xs`: at least two files
/// carry the hash, `g` lists exactly their paths, in order, and takes its
/// size from the first of them.
pub open spec fn is_group_of(xs: Seq<HashedView>, g: GroupView) -> bool {
    &&& count_hash(xs, g.hash) >= 2
    &&& g.paths.to_multiset() == paths_with(xs, g.hash).to_multiset()
    &&& paths_sorted(g.paths)
    &&& g.size == xs[first_index(xs, g.hash)].entry.size
}

/// `gs` is the duplicate report for `xs`: one group per hash that at least
/// two files share (and no other), each as `is_group_of` says, in report
/// order.
pub open spec fn is_grouping(xs: Seq<HashedView>, gs: Seq<GroupView>) -> bool {
    &&& forall|i: int| 0 <= i < gs.len() ==> is_group_of(xs, #[trigger] gs[i])
    &&& hashes_distinct(gs)
    &&& forall|k: int|
        0 <= k < xs.len() && count_hash(xs, #[trigger] xs[k].hash) >= 2 ==> exists|i: int|
            0 <= i < gs.len() && #[trigger] gs[i].hash == xs[k].hash
    &&& groups_sorted(gs)
}

pub open spec fn hashes_distinct(gs: Seq<GroupView>) -> bool {
    forall|i: int, j: int| 0 <= i < j < gs.len() ==> #[trigger] gs[i].hash != #[trigger] gs[j].hash
}

proof fn lemma_count_hash_len(xs: Seq<HashedView>, h: Seq<char>)
    ensures
        count_hash(xs, h) == paths_with(xs, h).len(),
    decreases xs.len(),
{
    if xs.len() > 0 {
        lemma_count_hash_len(xs.drop_last(), h);
    }
}

proof fn lemma_first_index(xs: Seq<HashedView>, h: Seq<char>, i: int)
    requires
        0 <= i < xs.len(),
        xs[i].hash == h,
        forall|j: int| 0 <= j < i ==> xs[j].hash != h,
    ensures
        first_index(xs, h) == i,
    decreases xs.len(),
{
    if i < xs.len() - 1 {
        lemma_first_index(xs.drop_last(), h, i);
    } else {
        lemma_first_index_absent(xs.drop_last(), h);
    }
}

proof fn lemma_first_index_absent(xs: Seq<HashedView>, h: Seq<char>)
    requires
        forall|j: int| 0 <= j < xs.len() ==> xs[j].hash != h,
    ensures
        first_index(xs, h) == -1,
    decreases xs.len(),
{
    if xs.len() > 0 {
        lemma_first_index_absent(xs.drop_last(), h);
    }
}

/// Reordering a list of groups keeps their hashes distinct.
proof fn lemma_reorder_keeps_distinct(a: Seq<GroupView>, b: Seq<GroupView>)
    requires
        a.to_multiset() == b.to_multiset(),
        hashes_distinct(a),
    ensures
        hashes_distinct(b),
{
    broadcast use vstd::seq_lib::group_to_multiset_ensures;
    assert(a.no_duplicates()) by {
        assert forall|i: int, j: int| 0 <= i < a.len() && 0 <= j < a.len() && i != j implies a[i] != a[j] by {
            if i < j {
                assert(a[i].hash != a[j].hash);
            } else {
                assert(a[j].hash != a[i].hash);
            }
        }
    }
    a.lemma_multiset_has_no_duplicates();
    b.lemma_multiset_has_no_duplicates_conv();
    assert forall|i: int, j: int| 0 <= i < j < b.len() implies #[trigger] b[i].hash != #[trigger] b[j].hash by {
        assert(b[i] != b[j]);
        assert(b.contains(b[i]));
        assert(b.contains(b[j]));
        lemma_same_elements(a, b, b[i]);
        lemma_same_elements(a, b, b[j]);
        let p = choose|p: int| 0 <= p < a.len() && a[p] == b[i];
        let q = choose|q: int| 0 <= q < a.len() && a[q] == b[j];
        if p < q {
            assert(a[p].hash != a[q].hash);
        } else if q < p {
            assert(a[q].hash != a[p].hash);
        }
    }
}

pub open spec fn hash_keys(xs: Seq<HashedView>) -> Seq<u64> {
    Seq::new(xs.len(), |i: int| text_key(xs[i].hash))
}

/// The paths, in order, of the files at positions `ps` that carry hash `h`.
pub open spec fn paths_at(xs: Seq<HashedView>, ps: Seq<usize>, h: Seq<char>) -> Seq<Seq<char>>
    decreases ps.len(),
{
    if ps.len() == 0 {
        Seq::empty()
    } else {
        let r = paths_at(xs, ps.drop_last(), h);
        if xs[ps.last() as int].hash == h {
            r.push(xs[ps.last() as int].entry.path)
        } else {
            r
        }
    }
}

/// Collecting over the files whose hash has the same key collects every
/// file with that hash.
proof fn lemma_paths_by_key(xs: Seq<HashedView>, h: Seq<char>, m: int)
    requires
        0 <= m <= xs.len(),
        xs.len() <= usize::MAX,
    ensures
        paths_with(xs.take(m), h) == paths_at(xs, positions_of(hash_keys(xs).take(m), text_key(h)), h),
    decreases m,
{
    if m > 0 {
        lemma_paths_by_key(xs, h, m - 1);
        assert(xs.take(m).drop_last() == xs.take(m - 1));
        assert(xs.take(m).last() == xs[m - 1]);
        let ks = hash_keys(xs).take(m);
        assert(ks.drop_last() == hash_keys(xs).take(m - 1));
        assert(ks.last() == text_key(xs[m - 1].hash));
        if ks.last() == text_key(h) {
            let p = positions_of(ks, text_key(h));
            assert(p.drop_last() == positions_of(ks.drop_last(), text_key(h)));
            assert(p.last() == (m - 1) as usize);
        }
    } else {
        assert(xs.take(0).len() == 0);
        assert(hash_keys(xs).take(0).len() == 0);
    }
}

/// Whether a file before position `i` carries the same hash as the one at
/// `i`; `ps` are the positions whose hash has the same key.
fn seen_before(xs: &Vec<Hashed>, i: usize, ps: &[usize]) -> (seen: bool)
    requires
        i < xs@.len(),
        ps@ == positions_of(hash_keys(hashed_views(xs@)), text_key(xs@[i as int].hash@)),
    ensures
        seen <==> exists|t: int| 0 <= t < i && #[trigger] hashed_views(xs@)[t].hash == xs@[i as int].hash@,
{
    let ghost all = hashed_views(xs@);
    let ghost h = xs@[i as int].hash@;
    let ghost keys = hash_keys(all);
    proof {
        assert(xs.len() == xs@.len());
        lemma_positions_of(keys, text_key(h));
    }
    let mut j: usize = 0;
    while j < ps.len()
        invariant
            0 <= j <= ps@.len(),
            i < xs@.len(),
            all == hashed_views(xs@),
            h == xs@[i as int].hash@,
            keys == hash_keys(all),
            ps@ == positions_of(keys, text_key(h)),
            forall|a: int| 0 <= a < ps@.len() ==> #[trigger] ps@[a] < xs@.len() && keys[ps@[a] as int] == text_key(h),
            forall|a: int| 0 <= a < j ==> !(ps@[a] < i && #[trigger] all[ps@[a] as int].hash == h),
        decreases ps@.len() - j,
    {
        let p = ps[j];
        assert(ps@[j as int] < xs@.len());
        assert(all[p as int] == xs@[p as int]@);
        if p < i && crate::text::str_eq(xs[p].hash.as_str(), xs[i].hash.as_str()) {
            assert(all[p as int].hash == h);
            return true;
        }
        j = j + 1;
    }
    proof {
        assert forall|t: int| 0 <= t < i implies #[trigger] all[t].hash != h by {
            if all[t].hash == h {
                assert(keys[t] == text_key(h));
                assert(ps@.contains(t as usize));
                let a = choose|a: int| 0 <= a < ps@.len() && ps@[a] == t as usize;
                assert(!(ps@[a] < i && all[ps@[a] as int].hash == h));
            }
        }
    }
    false
}

/// The paths of every file carrying hash `h`, in order; `ps` are the
/// positions whose hash has the same key as `h`.
fn collect_paths(xs: &Vec<Hashed>, h: &str, ps: &[usize]) -> (paths: Vec<String>)
    requires
        ps@ == positions_of(hash_keys(hashed_views(xs@)), text_key(h@)),
    ensures
        string_views(paths@) == paths_with(hashed_views(xs@), h@),
{
    let ghost all = hashed_views(xs@);
    let ghost keys = hash_keys(all);
    proof {
        assert(xs.len() == xs@.len());
        lemma_positions_of(keys, text_key(h@));
        lemma_paths_by_key(all, h@, all.len() as int);
        assert(all.take(all.len() as int) == all);
        assert(keys.take(all.len() as int) == keys);
    }
    let mut paths: Vec<String> = Vec::new();
    let mut j: usize = 0;
    while j < ps.len()
        invariant
            0 <= j <= ps@.len(),
            all == hashed_views(xs@),
            keys == hash_keys(all),
            ps@ == positions_of(keys, text_key(h@)),
            forall|a: int| 0 <= a < ps@.len() ==> #[trigger] ps@[a] < xs@.len(),
            string_views(paths@) == paths_at(all, ps@.take(j as int), h@),
        decreases ps@.len() - j,
    {
        let p = ps[j];
        assert(ps@[j as int] < xs@.len());
        proof {
            assert(ps@.take(j + 1).drop_last() == ps@.take(j as int));
            assert(ps@.take(j + 1).last() == p);
            assert(all[p as int] == xs@[p as int]@);
        }
        if crate::text::str_eq(xs[p].hash.as_str(), h) {
            let ghost op = paths@;
            paths.push(xs[p].entry.path.clone());
            assert(string_views(paths@) == string_views(op).push(xs@[p as int].entry.path@));
        }
        j = j + 1;
    }
    assert(ps@.take(ps@.len() as int) == ps@);
    paths
}

/// Membership carries over between two lists with the same elements.
proof fn lemma_same_elements<A>(a: Seq<A>, b: Seq<A>, x: A)
    requires
        a.to_multiset() == b.to_multiset(),
        b.contains(x),
    ensures
        a.contains(x),
{
    a.to_multiset_ensures();
    b.to_multiset_ensures();
    assert(b.to_multiset().count(x) > 0);
    assert(a.to_multiset().count(x) > 0);
}

/// The groups collected so far, in the order their hashes first occur.
fn collect_groups(xs: &Vec<Hashed>) -> (gs: Vec<Group>)
    ensures
        forall|a: int| 0 <= a < gs@.len() ==> is_group_of(hashed_views(xs@), #[trigger] group_views(gs@)[a]),
        forall|a: int| 0 <= a < gs@.len() ==> (#[trigger] gs@[a]).paths@.len() >= 1,
        hashes_distinct(group_views(gs@)),
        forall|k: int|
            0 <= k < xs@.len() && count_hash(hashed_views(xs@), #[trigger] hashed_views(xs@)[k].hash) >= 2
                ==> exists|a: int| 0 <= a < gs@.len() && #[trigger] group_views(gs@)[a].hash == hashed_views(xs@)[k].hash,
{
    let ghost all = hashed_views(xs@);
    let mut keys: Vec<u64> = Vec::new();
    let mut i: usize = 0;
    while i < xs.len()
        invariant
            0 <= i <= xs@.len(),
            all == hashed_views(xs@),
            keys@ == hash_keys(all).take(i as int),
        decreases xs@.len() - i,
    {
        assert(all[i as int] == xs@[i as int]@);
        keys.push(text_key_of(xs[i].hash.as_str()));
        i = i + 1;
        assert(keys@ =~= hash_keys(all).take(i as int));
    }
    assert(keys@ =~= hash_keys(all));
    let buckets = bucket_positions(&keys);
    let mut gs: Vec<Group> = Vec::new();
    let mut i: usize = 0;
    while i < xs.len()
        invariant
            0 <= i <= xs@.len(),
            all == hashed_views(xs@),
            keys@ == hash_keys(all),
            indexes(buckets@, keys@),
            forall|a: int| 0 <= a < gs@.len() ==> is_group_of(all, #[trigger] group_views(gs@)[a]),
            forall|a: int| 0 <= a < gs@.len() ==> (#[trigger] gs@[a]).paths@.len() >= 1,
            hashes_distinct(group_views(gs@)),
            forall|k: int|
                0 <= k < i && count_hash(all, #[trigger] all[k].hash) >= 2 ==> exists|a: int|
                    0 <= a < gs@.len() && #[trigger] group_views(gs@)[a].hash == all[k].hash,
            forall|a: int| 0 <= a < gs@.len() ==> 0 <= first_index(all, #[trigger] group_views(gs@)[a].hash) < i,
        decreases xs@.len() - i,
    {
        let ghost h = xs@[i as int].hash@;
        assert(all[i as int] == xs@[i as int]@);
        let ps = bucket_of(&buckets, keys[i]);
        assert(buckets@.contains_key(keys@[i as int]) || !buckets@.contains_key(keys@[i as int]));
        assert(keys@[i as int] == text_key(h));
        let seen = seen_before(xs, i, ps);
        let ghost og = gs@;
        if !seen {
            let paths = collect_paths(xs, xs[i].hash.as_str(), ps);
            if paths.len() >= 2 {
                proof {
                    lemma_first_index(all, h, i as int);
                    lemma_count_hash_len(all, h);
                }
                let sorted = sort_paths(paths);
                let g = Group { hash: xs[i].hash.clone(), size: xs[i].entry.size, paths: sorted };
                proof {
                    assert(g@.paths.len() == paths_with(all, h).len()) by {
                        g@.paths.to_multiset_ensures();
                        paths_with(all, h).to_multiset_ensures();
                    }
                    assert(is_group_of(all, g@));
                }
                gs.push(g);
                proof {
                    assert(group_views(gs@) == group_views(og).push(g@));
                    assert forall|a: int, b: int| 0 <= a < b < gs@.len() implies
                        #[trigger] group_views(gs@)[a].hash != #[trigger] group_views(gs@)[b].hash by {
                        if b == og.len() {
                            assert(first_index(all, group_views(og)[a].hash) < i);
                        } else {
                            assert(group_views(og)[a].hash != group_views(og)[b].hash);
                        }
                    }
                    assert(all[i as int].hash == group_views(gs@)[og.len() as int].hash);
                }
            } else {
                proof {
                    lemma_count_hash_len(all, h);
                }
            }
        } else {
            proof {
                let t = choose|t: int| 0 <= t < i && #[trigger] all[t].hash == h;
                assert(all[t].hash == h);
            }
        }
        proof {
            let nv = group_views(gs@);
            let ov = group_views(og);
            assert(og.len() <= gs@.len() <= og.len() + 1);
            assert(forall|a: int| 0 <= a < ov.len() ==> nv[a] == ov[a]);
            assert forall|k: int|
                0 <= k < i + 1 && count_hash(all, #[trigger] all[k].hash) >= 2 implies exists|a: int|
                    0 <= a < gs@.len() && #[trigger] group_views(gs@)[a].hash == all[k].hash by {
                if k < i {
                    let a = choose|a: int| 0 <= a < og.len() && #[trigger] group_views(og)[a].hash == all[k].hash;
                    assert(nv[a] == ov[a]);
                } else if seen {
                    let t = choose|t: int| 0 <= t < i && #[trigger] all[t].hash == h;
                    let a = choose|a: int| 0 <= a < og.len() && #[trigger] group_views(og)[a].hash == all[t].hash;
                    assert(nv[a] == ov[a]);
                } else {
                    assert(nv.len() > ov.len());
                    assert(nv[ov.len() as int].hash == all[k].hash);
                }
            }
            assert forall|a: int| 0 <= a < gs@.len() implies 0 <= first_index(all, #[trigger] group_views(gs@)[a].hash) < i + 1 by {
                if a < og.len() {
                    assert(nv[a] == ov[a]);
                } else {
                    assert(a == og.len());
                }
            }
        }
        i = i + 1;
    }
    gs
}

/// Tier three: files with the same full-content hash form a group, one per
/// hash that at least two files share; each group lists its paths in
/// lexicographic order, and the groups come largest waste first.
pub fn group_by_hash(xs: &Vec<Hashed>) -> (r: Vec<Group>)
    ensures
        is_grouping(hashed_views(xs@), group_views(r@)),
        hashes_from_contents(hashed_views(xs@)),
{
    let mut i: usize = 0;
    while i < xs.len()
        invariant
            0 <= i <= xs@.len(),
            forall|k: int| 0 <= k < i ==> (#[trigger] hashed_views(xs@)[k]).hash == content_hash(hashed_views(xs@)[k].content),
        decreases xs@.len() - i,
    {
        let x = &xs[i];
        proof {
            use_type_invariant(x);
            assert(hashed_views(xs@)[i as int] == xs@[i as int]@);
        }
        i = i + 1;
    }
    let gs = collect_groups(xs);
    let r = sort_groups(gs);
    proof {
        let all = hashed_views(xs@);
        let gv = group_views(gs@);
        let rv = group_views(r@);
        lemma_reorder_keeps_distinct(gv, rv);
        assert forall|a: int| 0 <= a < rv.len() implies is_group_of(all, #[trigger] rv[a]) by {
            assert(rv.contains(rv[a]));
            lemma_same_elements(gv, rv, rv[a]);
        }
        assert forall|k: int|
            0 <= k < all.len() && count_hash(all, #[trigger] all[k].hash) >= 2 implies exists|a: int|
                0 <= a < rv.len() && #[trigger] rv[a].hash == all[k].hash by {
            let b = choose|b: int| 0 <= b < gs@.len() && #[trigger] group_views(gs@)[b].hash == all[k].hash;
            assert(gv.contains(gv[b]));
            lemma_same_elements(rv, gv, gv[b]);
            let a = choose|a: int| 0 <= a < rv.len() && rv[a] == gv[b];
            assert(rv[a].hash == all[k].hash);
        }
    }
    r
}


/// The survivor of a group, its first path, is the lexicographically first
/// of its paths, whatever order the files were found in.
pub proof fn lemma_survivor_is_first(ps: Seq<Seq<char>>)
    requires
        paths_sorted(ps),
        ps.len() >= 1,
    ensures
        forall|k: int| 0 <= k < ps.len() ==> !lex_lt(#[trigger] ps[k], ps[0]),
{
    assert forall|k: int| 0 <= k < ps.len() implies !lex_lt(#[trigger] ps[k], ps[0]) by {
        if k == 0 {
            lemma_lex_irreflexive(ps[0]);
        } else {
            assert(!lex_lt(ps[k], ps[0]));
        }
    }
}


/// Text order as a total "comes no later than" relation.
pub open spec fn path_leq() -> spec_fn(Seq<char>, Seq<char>) -> bool {
    |p: Seq<char>, q: Seq<char>| !lex_lt(q, p)
}

proof fn lemma_path_leq_total()
    ensures
        vstd::relations::total_ordering(path_leq()),
{
    let leq = path_leq();
    assert forall|x: Seq<char>| #[trigger] leq(x, x) by {
        lemma_lex_irreflexive(x);
    }
    assert forall|x: Seq<char>, y: Seq<char>| #[trigger] leq(x, y) && #[trigger] leq(y, x) implies x == y by {
        if x != y {
            lemma_lex_total(x, y);
        }
    }
    assert forall|x: Seq<char>, y: Seq<char>, z: Seq<char>| #[trigger] leq(x, y) && #[trigger] leq(y, z) implies leq(x, z) by {
        if lex_lt(z, x) {
            if x == y {
            } else if y == z {
            } else {
                lemma_lex_total(x, y);
                lemma_lex_total(y, z);
                lemma_lex_transitive(x, y, z);
                lemma_lex_asymmetric(x, z);
            }
        }
    }
    assert forall|x: Seq<char>, y: Seq<char>| #[trigger] leq(x, y) || #[trigger] leq(y, x) by {
        if lex_lt(y, x) {
            lemma_lex_asymmetric(y, x);
        }
    }
}

/// Two orderings of the same paths that are both sorted are the same.
proof fn lemma_sorted_paths_unique(p: Seq<Seq<char>>, q: Seq<Seq<char>>)
    requires
        paths_sorted(p),
        paths_sorted(q),
        p.to_multiset() == q.to_multiset(),
    ensures
        p == q,
{
    lemma_path_leq_total();
    assert(vstd::relations::sorted_by(p, path_leq()));
    assert(vstd::relations::sorted_by(q, path_leq()));
    vstd::seq_lib::lemma_sorted_unique(p, q, path_leq());
}

/// A hash names at most one group.
proof fn lemma_one_group_per_hash(xs: Seq<HashedView>, g: GroupView, h: GroupView)
    requires
        is_group_of(xs, g),
        is_group_of(xs, h),
        g.hash == h.hash,
    ensures
        g == h,
{
    lemma_sorted_paths_unique(g.paths, h.paths);
}

/// A hash some files carry occurs at some position.
proof fn lemma_count_hash_witness(xs: Seq<HashedView>, h: Seq<char>)
    requires
        count_hash(xs, h) >= 1,
    ensures
        exists|k: int| 0 <= k < xs.len() && #[trigger] xs[k].hash == h,
    decreases xs.len(),
{
    if xs.last().hash != h {
        lemma_count_hash_witness(xs.drop_last(), h);
        let k = choose|k: int| 0 <= k < xs.drop_last().len() && #[trigger] xs.drop_last()[k].hash == h;
        assert(xs[k] == xs.drop_last()[k]);
    } else {
        assert(xs[xs.len() - 1].hash == h);
    }
}

/// Two lists of groups in report order, each with distinct hashes, that hold
/// the same groups (and the same group for a shared hash) are one list.
proof fn lemma_report_order_unique(a: Seq<GroupView>, b: Seq<GroupView>)
    requires
        groups_sorted(a),
        groups_sorted(b),
        hashes_distinct(a),
        hashes_distinct(b),
        forall|g: GroupView| a.contains(g) <==> b.contains(g),
        forall|i: int, j: int| 0 <= i < a.len() && 0 <= j < b.len() && #[trigger] a[i].hash == #[trigger] b[j].hash ==> a[i] == b[j],
    ensures
        a == b,
    decreases a.len(),
{
    if a.len() == 0 {
        if b.len() > 0 {
            assert(b.contains(b[0]));
        }
        assert(a =~= b);
    } else {
        assert(a.contains(a[0]));
        assert(b.len() > 0);
        assert(b.contains(b[0]));
        let j = choose|j: int| 0 <= j < b.len() && b[j] == a[0];
        let i = choose|i: int| 0 <= i < a.len() && a[i] == b[0];
        if a[0] != b[0] {
            assert(j > 0 && i > 0);
            assert(!group_before(b[j], b[0]));
            assert(!group_before(a[i], a[0]));
            if a[0].hash != b[0].hash {
                lemma_lex_total(a[0].hash, b[0].hash);
            }
            assert(a[0].hash == b[0].hash);
            assert(a[0] == b[0]);
        }
        let a1 = a.drop_first();
        let b1 = b.drop_first();
        assert forall|g: GroupView| a1.contains(g) <==> b1.contains(g) by {
            if a1.contains(g) {
                let k = choose|k: int| 0 <= k < a1.len() && a1[k] == g;
                assert(a[k + 1] == g);
                assert(a.contains(g));
                let m = choose|m: int| 0 <= m < b.len() && b[m] == g;
                if m == 0 {
                    assert(a[0].hash != a[k + 1].hash);
                }
                assert(b1[m - 1] == g);
            }
            if b1.contains(g) {
                let k = choose|k: int| 0 <= k < b1.len() && b1[k] == g;
                assert(b[k + 1] == g);
                assert(b.contains(g));
                let m = choose|m: int| 0 <= m < a.len() && a[m] == g;
                if m == 0 {
                    assert(b[0].hash != b[k + 1].hash);
                }
                assert(a1[m - 1] == g);
            }
        }
        assert forall|x: int, y: int| 0 <= x < a1.len() && 0 <= y < b1.len() && #[trigger] a1[x].hash == #[trigger] b1[y].hash implies a1[x] == b1[y] by {
            assert(a[x + 1].hash == b[y + 1].hash);
        }
        assert forall|x: int, y: int| 0 <= x < y < a1.len() implies !group_before(#[trigger] a1[y], #[trigger] a1[x]) by {
            assert(!group_before(a[y + 1], a[x + 1]));
        }
        assert forall|x: int, y: int| 0 <= x < y < b1.len() implies !group_before(#[trigger] b1[y], #[trigger] b1[x]) by {
            assert(!group_before(b[y + 1], b[x + 1]));
        }
        assert forall|x: int, y: int| 0 <= x < y < a1.len() implies #[trigger] a1[x].hash != #[trigger] a1[y].hash by {
            assert(a[x + 1].hash != a[y + 1].hash);
        }
        assert forall|x: int, y: int| 0 <= x < y < b1.len() implies #[trigger] b1[x].hash != #[trigger] b1[y].hash by {
            assert(b[x + 1].hash != b[y + 1].hash);
        }
        lemma_report_order_unique(a1, b1);
        assert(a =~= seq![a[0]] + a1);
        assert(b =~= seq![b[0]] + b1);
    }
}

/// The duplicate report is pinned down by the files: two lists of groups
/// that both meet `group_by_hash`'s contract for the same files are the same
/// list, down to the order of groups and of paths. Nothing in it depends on
/// anything but what the files hold and are called.
pub proof fn lemma_grouping_determined(xs: Seq<HashedView>, a: Seq<GroupView>, b: Seq<GroupView>)
    requires
        is_grouping(xs, a),
        is_grouping(xs, b),
    ensures
        a == b,
{
    assert forall|i: int, j: int| 0 <= i < a.len() && 0 <= j < b.len() && #[trigger] a[i].hash == #[trigger] b[j].hash implies a[i] == b[j] by {
        lemma_one_group_per_hash(xs, a[i], b[j]);
    }
    assert forall|g: GroupView| a.contains(g) implies b.contains(g) by {
        let i = choose|i: int| 0 <= i < a.len() && a[i] == g;
        assert(is_group_of(xs, a[i]));
        lemma_count_hash_witness(xs, g.hash);
        let k = choose|k: int| 0 <= k < xs.len() && #[trigger] xs[k].hash == g.hash;
        let j = choose|j: int| 0 <= j < b.len() && #[trigger] b[j].hash == xs[k].hash;
        assert(a[i].hash == b[j].hash);
    }
    assert forall|g: GroupView| b.contains(g) implies a.contains(g) by {
        let j = choose|j: int| 0 <= j < b.len() && b[j] == g;
        assert(is_group_of(xs, b[j]));
        lemma_count_hash_witness(xs, g.hash);
        let k = choose|k: int| 0 <= k < xs.len() && #[trigger] xs[k].hash == g.hash;
        let i = choose|i: int| 0 <= i < a.len() && #[trigger] a[i].hash == xs[k].hash;
        assert(a[i].hash == b[j].hash);
    }
    lemma_report_order_unique(a, b);
}


/// Files carrying one hash have one size, as files of equal content do.
pub open spec fn sizes_follow_hashes(xs: Seq<HashedView>) -> bool {
    forall|i: int, j: int|
        0 <= i < xs.len() && 0 <= j < xs.len() && #[trigger] xs[i].hash == #[trigger] xs[j].hash
            ==> xs[i].entry.size == xs[j].entry.size
}

proof fn lemma_paths_with_remove(ys: Seq<HashedView>, h: Seq<char>, j: int)
    requires
        0 <= j < ys.len(),
    ensures
        paths_with(ys, h).to_multiset() == if ys[j].hash == h {
            paths_with(ys.remove(j), h).to_multiset().insert(ys[j].entry.path)
        } else {
            paths_with(ys.remove(j), h).to_multiset()
        },
    decreases ys.len(),
{
    broadcast use vstd::seq_lib::group_to_multiset_ensures;
    if j == ys.len() - 1 {
        assert(ys.remove(j) == ys.drop_last());
    } else {
        let r = ys.remove(j);
        assert(r.drop_last() == ys.drop_last().remove(j));
        assert(r.last() == ys.last());
        assert(ys.drop_last()[j] == ys[j]);
        lemma_paths_with_remove(ys.drop_last(), h, j);
        if ys.last().hash == h {
            let m = paths_with(r.drop_last(), h).to_multiset();
            if ys[j].hash == h {
                assert(m.insert(ys.last().entry.path).insert(ys[j].entry.path)
                    =~= m.insert(ys[j].entry.path).insert(ys.last().entry.path));
            }
        }
    }
}

/// Reordering the files reorders, and only reorders, the paths carrying
/// each hash.
proof fn lemma_paths_with_reorder(xs: Seq<HashedView>, ys: Seq<HashedView>, h: Seq<char>)
    requires
        xs.to_multiset() == ys.to_multiset(),
    ensures
        paths_with(xs, h).to_multiset() == paths_with(ys, h).to_multiset(),
    decreases xs.len(),
{
    broadcast use vstd::seq_lib::group_to_multiset_ensures;
    if xs.len() == 0 {
        xs.to_multiset_ensures();
        ys.to_multiset_ensures();
        assert(xs.to_multiset().len() == ys.to_multiset().len());
        assert(ys.len() == 0);
        assert(ys =~= Seq::<HashedView>::empty());
    } else {
        let x = xs.last();
        assert(xs == xs.drop_last().push(x));
        assert(xs.to_multiset().count(x) > 0);
        assert(ys.contains(x));
        let j = choose|j: int| 0 <= j < ys.len() && ys[j] == x;
        let ys1 = ys.remove(j);
        assert(ys1.to_multiset() == ys.to_multiset().remove(x));
        assert(xs.drop_last().to_multiset() == xs.to_multiset().remove(x)) by {
            assert(xs.to_multiset() == xs.drop_last().to_multiset().insert(x));
        }
        lemma_paths_with_reorder(xs.drop_last(), ys1, h);
        lemma_paths_with_remove(ys, h, j);
    }
}

proof fn lemma_first_index_found(xs: Seq<HashedView>, h: Seq<char>)
    requires
        count_hash(xs, h) >= 1,
    ensures
        0 <= first_index(xs, h) < xs.len(),
        xs[first_index(xs, h)].hash == h,
    decreases xs.len(),
{
    if count_hash(xs.drop_last(), h) >= 1 {
        lemma_first_index_found(xs.drop_last(), h);
        assert(xs[first_index(xs, h)] == xs.drop_last()[first_index(xs, h)]);
    } else {
        lemma_first_index_absent_count(xs.drop_last(), h);
    }
}

proof fn lemma_first_index_absent_count(xs: Seq<HashedView>, h: Seq<char>)
    requires
        count_hash(xs, h) == 0,
    ensures
        first_index(xs, h) == -1,
    decreases xs.len(),
{
    if xs.len() > 0 {
        lemma_first_index_absent_count(xs.drop_last(), h);
    }
}

/// A re-scan of an unchanged tree gives the same duplicate report whatever
/// order the walk finds the files in: for two listings of the same files
/// (files of one hash having one size, as files of equal content do), the
/// reports that meet `group_by_hash`'s contract are one and the same.
pub proof fn lemma_grouping_ignores_walk_order(
    xs: Seq<HashedView>,
    ys: Seq<HashedView>,
    a: Seq<GroupView>,
    b: Seq<GroupView>,
)
    requires
        xs.to_multiset() == ys.to_multiset(),
        sizes_follow_hashes(xs),
        is_grouping(xs, a),
        is_grouping(ys, b),
    ensures
        a == b,
{
    broadcast use vstd::seq_lib::group_to_multiset_ensures;
    assert forall|h: Seq<char>| #[trigger] count_hash(xs, h) == count_hash(ys, h)
        && paths_with(xs, h).to_multiset() == paths_with(ys, h).to_multiset() by {
        lemma_paths_with_reorder(xs, ys, h);
        lemma_count_hash_len(xs, h);
        lemma_count_hash_len(ys, h);
        paths_with(xs, h).to_multiset_ensures();
        paths_with(ys, h).to_multiset_ensures();
    }
    assert forall|i: int| 0 <= i < b.len() implies is_group_of(xs, #[trigger] b[i]) by {
        let g = b[i];
        assert(is_group_of(ys, g));
        assert(count_hash(xs, g.hash) == count_hash(ys, g.hash));
        lemma_first_index_found(xs, g.hash);
        lemma_first_index_found(ys, g.hash);
        let fy = ys[first_index(ys, g.hash)];
        assert(ys.contains(fy));
        assert(ys.to_multiset().count(fy) > 0);
        assert(xs.contains(fy));
        let k = choose|k: int| 0 <= k < xs.len() && xs[k] == fy;
        let f = first_index(xs, g.hash);
        assert(xs[k].hash == xs[f].hash);
    }
    assert forall|k: int|
        0 <= k < xs.len() && count_hash(xs, #[trigger] xs[k].hash) >= 2 implies exists|i: int|
            0 <= i < b.len() && #[trigger] b[i].hash == xs[k].hash by {
        assert(xs.contains(xs[k]));
        assert(xs.to_multiset().count(xs[k]) > 0);
        assert(ys.contains(xs[k]));
        let m = choose|m: int| 0 <= m < ys.len() && ys[m] == xs[k];
        assert(count_hash(ys, ys[m].hash) >= 2);
    }
    assert(is_grouping(xs, b));
    lemma_grouping_determined(xs, a, b);
}


/// The paths carrying a hash are the paths of the files with that hash.
proof fn lemma_paths_with_members(xs: Seq<HashedView>, h: Seq<char>)
    ensures
        forall|p: Seq<char>| #[trigger] paths_with(xs, h).contains(p) ==> exists|k: int|
            0 <= k < xs.len() && xs[k].hash == h && #[trigger] xs[k].entry.path == p,
        forall|k: int| 0 <= k < xs.len() && xs[k].hash == h ==> paths_with(xs, h).contains(#[trigger] xs[k].entry.path),
    decreases xs.len(),
{
    if xs.len() > 0 {
        let init = xs.drop_last();
        lemma_paths_with_members(init, h);
        let r = paths_with(init, h);
        let q = paths_with(xs, h);
        assert forall|p: Seq<char>| #[trigger] q.contains(p) implies exists|k: int|
            0 <= k < xs.len() && xs[k].hash == h && #[trigger] xs[k].entry.path == p by {
            let j = choose|j: int| 0 <= j < q.len() && q[j] == p;
            if j < r.len() {
                assert(r.contains(p));
                let k = choose|k: int| 0 <= k < init.len() && init[k].hash == h && #[trigger] init[k].entry.path == p;
                assert(xs[k] == init[k]);
            } else {
                assert(xs[xs.len() - 1].entry.path == p);
            }
        }
        assert forall|k: int| 0 <= k < xs.len() && xs[k].hash == h implies q.contains(#[trigger] xs[k].entry.path) by {
            if k < xs.len() - 1 {
                assert(xs[k] == init[k]);
                assert(r.contains(init[k].entry.path));
                let j = choose|j: int| 0 <= j < r.len() && r[j] == init[k].entry.path;
                assert(q[j] == r[j]);
            } else {
                assert(q[q.len() - 1] == xs[k].entry.path);
            }
        }
    }
}

proof fn lemma_count_hash_one(xs: Seq<HashedView>, h: Seq<char>, a: int)
    requires
        0 <= a < xs.len(),
        xs[a].hash == h,
    ensures
        count_hash(xs, h) >= 1,
    decreases xs.len(),
{
    if a < xs.len() - 1 {
        lemma_count_hash_one(xs.drop_last(), h, a);
    }
}

proof fn lemma_count_hash_two(xs: Seq<HashedView>, h: Seq<char>, a: int, b: int)
    requires
        0 <= a < b < xs.len(),
        xs[a].hash == h,
        xs[b].hash == h,
    ensures
        count_hash(xs, h) >= 2,
    decreases xs.len(),
{
    if b == xs.len() - 1 {
        lemma_count_hash_one(xs.drop_last(), h, a);
    } else {
        lemma_count_hash_two(xs.drop_last(), h, a, b);
    }
}

/// Every path of a group is a file whose content hashes to the group's hash.
pub proof fn lemma_group_hash_is_content_hash(xs: Seq<HashedView>, gs: Seq<GroupView>, i: int, p: Seq<char>)
    requires
        is_grouping(xs, gs),
        hashes_from_contents(xs),
        0 <= i < gs.len(),
        gs[i].paths.contains(p),
    ensures
        exists|k: int|
            0 <= k < xs.len() && #[trigger] xs[k].entry.path == p && content_hash(xs[k].content) == gs[i].hash,
{
    broadcast use vstd::seq_lib::group_to_multiset_ensures;
    let g = gs[i];
    assert(is_group_of(xs, g));
    assert(g.paths.to_multiset().count(p) > 0);
    assert(paths_with(xs, g.hash).to_multiset().count(p) > 0);
    assert(paths_with(xs, g.hash).contains(p));
    lemma_paths_with_members(xs, g.hash);
    let k = choose|k: int| 0 <= k < xs.len() && xs[k].hash == g.hash && #[trigger] xs[k].entry.path == p;
    assert(xs[k].hash == content_hash(xs[k].content));
}

/// No pair of identical files is missed: two files with the same content are
/// listed in one group.
pub proof fn lemma_no_pair_missed(xs: Seq<HashedView>, gs: Seq<GroupView>, a: int, b: int)
    requires
        is_grouping(xs, gs),
        hashes_from_contents(xs),
        0 <= a < b < xs.len(),
        xs[a].content == xs[b].content,
    ensures
        exists|i: int|
            0 <= i < gs.len() && (#[trigger] gs[i]).paths.contains(xs[a].entry.path) && gs[i].paths.contains(
                xs[b].entry.path,
            ),
{
    broadcast use vstd::seq_lib::group_to_multiset_ensures;
    let h = xs[a].hash;
    assert(xs[a].hash == content_hash(xs[a].content));
    assert(xs[b].hash == content_hash(xs[b].content));
    lemma_count_hash_two(xs, h, a, b);
    assert(count_hash(xs, xs[a].hash) >= 2);
    let i = choose|i: int| 0 <= i < gs.len() && #[trigger] gs[i].hash == xs[a].hash;
    let g = gs[i];
    assert(is_group_of(xs, g));
    lemma_paths_with_members(xs, h);
    let pw = paths_with(xs, h);
    assert(pw.contains(xs[a].entry.path));
    assert(pw.contains(xs[b].entry.path));
    assert(pw.to_multiset().count(xs[a].entry.path) > 0);
    assert(pw.to_multiset().count(xs[b].entry.path) > 0);
    assert(g.paths.to_multiset().count(xs[a].entry.path) > 0);
    assert(g.paths.to_multiset().count(xs[b].entry.path) > 0);
}

} // verus!
