//! Deciding what happens to every scanned file.
use std::collections::HashMap;
use vstd::prelude::*;
use vstd::set_lib::{lemma_int_range, lemma_len_subset, lemma_map_size, set_int_range};

use crate::archive::{member_views, Inspection, InspectionView, MemberView};
use crate::dedupe::{group_views, string_views, Group, GroupView};
use crate::ident::{Format, Kind, KindView};
use crate::index::{bucket_of, index_new, index_push, indexes, lemma_positions_of, positions_of};
use crate::path::{
    append_chars, copy_chars, ext_chars, ext_of, file_name, file_name_chars, is_absolute, join_path,
    join_str, last_index_of, path_join, path_key, path_key_of, rel_of, rel_path, same_path,
    same_path_str, stem_chars, stem_of,
};
use crate::plan::{action_views, planned_views, Action, ActionView, PlannedMember, PlannedMemberView};
use crate::rules::{route_spec, Rules, Settings};
use crate::text::{
    lex_less, lex_lt, chars_of, decimal, lemma_decimal_injective, lemma_decimal_len, push_decimal, push_str, string_of,
};
use crate::walk::{Entry, EntryView};

verus! {

/// The name a routed file keeps: its own file name, or `unnamed`.
pub open spec fn claim_name(source: Seq<char>) -> Seq<char> {
    match file_name(source) {
        Some(n) => n,
        None => "unnamed"@,
    }
}

/// The `n`th name tried for a file named `name`: the name itself, then
/// `stem-n.ext` (or `stem-n` without an extension) for n = 2, 3, ...
pub open spec fn candidate(name: Seq<char>, n: nat) -> Seq<char> {
    if n == 1 {
        name
    } else {
        match ext_of(name) {
            Some(e) => stem_of(name) + seq!['-'] + decimal(n) + seq!['.'] + e,
            None => stem_of(name) + seq!['-'] + decimal(n),
        }
    }
}

/// The `n`th destination tried inside `dir` for a file from `source`.
pub open spec fn target(dir: Seq<char>, source: Seq<char>, n: nat) -> Seq<char> {
    path_join(dir, candidate(claim_name(source), n))
}

/// Whether `taken` holds `p`, compared as paths are (the way a `HashSet` of
/// `PathBuf`s compares them).
pub open spec fn holds_path(taken: Seq<Seq<char>>, p: Seq<char>) -> bool {
    exists|i: int| 0 <= i < taken.len() && same_path(#[trigger] taken[i], p)
}

/// No two of these are the same path.
pub open spec fn paths_distinct(s: Seq<Seq<char>>) -> bool {
    forall|i: int, j: int| 0 <= i < j < s.len() ==> !same_path(#[trigger] s[i], #[trigger] s[j])
}

/// Attempt `n` is the one taken: it is free, and every earlier one is not.
pub open spec fn is_claim(claimed: Seq<Seq<char>>, dir: Seq<char>, source: Seq<char>, n: nat) -> bool {
    &&& n >= 1
    &&& !holds_path(claimed, target(dir, source, n))
    &&& forall|m: nat| 1 <= m < n ==> holds_path(claimed, #[trigger] target(dir, source, m))
}

/// The destination `claim` picks: the first attempt not yet claimed.
pub open spec fn claim_spec(claimed: Seq<Seq<char>>, dir: Seq<char>, source: Seq<char>) -> Seq<char> {
    target(dir, source, choose|n: nat| is_claim(claimed, dir, source, n))
}

/// There is only one first free attempt.
pub proof fn lemma_claim_unique(claimed: Seq<Seq<char>>, dir: Seq<char>, source: Seq<char>, n: nat)
    requires
        is_claim(claimed, dir, source, n),
    ensures
        claim_spec(claimed, dir, source) == target(dir, source, n),
{
    let c = choose|k: nat| is_claim(claimed, dir, source, k);
    assert(is_claim(claimed, dir, source, c));
    if c < n {
        assert(holds_path(claimed, target(dir, source, c)));
    } else if n < c {
        assert(holds_path(claimed, target(dir, source, n)));
    }
}

/// A file name is one plain component: it holds no `/` and names something.
proof fn lemma_claim_name_plain(source: Seq<char>)
    ensures
        forall|k: int| 0 <= k < claim_name(source).len() ==> claim_name(source)[k] != '/',
        claim_name(source).len() > 0,
        crate::path::is_normal(claim_name(source)),
{
    crate::path::lemma_split_pieces(source, false);
    reveal_strlit("unnamed");
    match file_name(source) {
        Some(n) => {
            let segs = crate::path::split(source, false);
            crate::archive::lemma_keep_normal_sub(segs);
            let kn = crate::path::keep_normal(segs);
            assert(n == kn[kn.len() - 1]);
            assert(crate::path::is_normal(kn[kn.len() - 1]));
            let w = choose|w: int| 0 <= w < segs.len() && segs[w] == n;
            assert forall|k: int| 0 <= k < n.len() implies n[k] != '/' by {
                assert(segs[w][k] == n[k]);
            }
        },
        None => {
            assert("unnamed"@ != seq!['.']) by {
                assert("unnamed"@.len() == 7);
            }
        },
    }
}

/// Different attempt numbers give different names.
proof fn lemma_candidate_injective(name: Seq<char>, a: nat, b: nat)
    requires
        a >= 1,
        b >= 1,
        candidate(name, a) == candidate(name, b),
    ensures
        a == b,
{
    lemma_decimal_len(a);
    lemma_decimal_len(b);
    let i = last_index_of(name, '.');
    if a >= 2 && b >= 2 {
        let st = stem_of(name);
        let ca = candidate(name, a);
        let cb = candidate(name, b);
        let lo: int = st.len() as int + 1;
        match ext_of(name) {
            Some(e) => {
                assert(ca.len() == lo + decimal(a).len() + 1 + e.len());
                assert(decimal(a).len() == decimal(b).len());
                assert(ca.subrange(lo, lo + decimal(a).len() as int) == decimal(a));
                assert(cb.subrange(lo, lo + decimal(b).len() as int) == decimal(b));
            },
            None => {
                assert(ca.subrange(lo, ca.len() as int) == decimal(a));
                assert(cb.subrange(lo, cb.len() as int) == decimal(b));
            },
        }
        lemma_decimal_injective(a, b);
    } else if a >= 2 || b >= 2 {
        let m: nat = if a >= 2 { a } else { b };
        lemma_decimal_len(m);
        lemma_last_index(name, '.');
        match ext_of(name) {
            Some(e) => {
                assert(name == stem_of(name) + seq!['.'] + e) by {
                    assert(name =~= name.take(i) + seq!['.'] + name.skip(i + 1));
                }
                assert(candidate(name, m).len() > name.len());
            },
            None => {
                assert(candidate(name, m).len() > name.len());
            },
        }
    }
}

proof fn lemma_last_index(s: Seq<char>, c: char)
    ensures
        -1 <= last_index_of(s, c) < s.len(),
        last_index_of(s, c) >= 0 ==> s[last_index_of(s, c)] == c,
    decreases s.len(),
{
    if s.len() > 0 && s.last() != c {
        lemma_last_index(s.drop_last(), c);
    }
}

proof fn lemma_candidate_plain(name: Seq<char>, n: nat)
    requires
        name.len() > 0,
        forall|k: int| 0 <= k < name.len() ==> name[k] != '/',
        crate::path::is_normal(name),
    ensures
        forall|k: int| 0 <= k < candidate(name, n).len() ==> candidate(name, n)[k] != '/',
        crate::path::is_normal(candidate(name, n)),
{
    if n != 1 {
        lemma_last_index(name, '.');
        lemma_decimal_len(n);
        crate::text::lemma_decimal_digits(n);
        let i = last_index_of(name, '.');
        let st = stem_of(name);
        let c = candidate(name, n);
        let d = decimal(n);
        assert forall|k: int| 0 <= k < st.len() implies st[k] != '/' by {
            assert(st[k] == name[k]);
        }
        match ext_of(name) {
            Some(e) => {
                assert(c == st + seq!['-'] + d + seq!['.'] + e);
                assert forall|k: int| 0 <= k < e.len() implies e[k] != '/' by {
                    assert(e[k] == name[i + 1 + k]);
                }
                assert forall|k: int| 0 <= k < c.len() implies c[k] != '/' by {
                    if k < st.len() {
                        assert(c[k] == st[k]);
                    } else if k == st.len() {
                        assert(c[k] == '-');
                    } else if k < st.len() + 1 + d.len() {
                        assert(c[k] == d[k - st.len() - 1]);
                    } else if k == st.len() + 1 + d.len() {
                        assert(c[k] == '.');
                    } else {
                        assert(c[k] == e[k - st.len() - 2 - d.len()]);
                    }
                }
            },
            None => {
                assert(c == st + seq!['-'] + d);
                assert forall|k: int| 0 <= k < c.len() implies c[k] != '/' by {
                    if k < st.len() {
                        assert(c[k] == st[k]);
                    } else if k == st.len() {
                        assert(c[k] == '-');
                    } else {
                        assert(c[k] == d[k - st.len() - 1]);
                    }
                }
            },
        }
        assert(c.len() >= 2);
        assert(c != seq!['.']);
    }
}

/// Different attempt numbers give destinations that are different paths.
proof fn lemma_target_paths_injective(dir: Seq<char>, source: Seq<char>, a: nat, b: nat)
    requires
        a >= 1,
        b >= 1,
        same_path(target(dir, source, a), target(dir, source, b)),
    ensures
        a == b,
{
    let name = claim_name(source);
    lemma_claim_name_plain(source);
    lemma_candidate_plain(name, a);
    lemma_candidate_plain(name, b);
    let ca = candidate(name, a);
    let cb = candidate(name, b);
    crate::path::lemma_join_component(dir, ca);
    crate::path::lemma_join_component(dir, cb);
    let c = crate::path::components(dir);
    assert(c.push(ca).last() == ca);
    assert(c.push(cb).last() == cb);
    lemma_candidate_injective(name, a, b);
}

/// If the first `k` destinations for a file are all taken, at least `k`
/// paths are taken.
proof fn lemma_pigeonhole(dir: Seq<char>, source: Seq<char>, taken: Seq<Seq<char>>, k: nat)
    requires
        forall|m: nat| 1 <= m <= k ==> holds_path(taken, #[trigger] target(dir, source, m)),
    ensures
        k <= taken.len(),
{
    let xs = set_int_range(1, k as int + 1);
    lemma_int_range(1, k as int + 1);
    let f = |m: int| choose|i: int| 0 <= i < taken.len() && same_path(#[trigger] taken[i], target(dir, source, m as nat));
    assert forall|m: int| xs.contains(m) implies 0 <= #[trigger] f(m) < taken.len()
        && same_path(taken[f(m)], target(dir, source, m as nat)) by {
        assert(holds_path(taken, target(dir, source, m as nat)));
    }
    assert forall|a: int, b: int| xs.contains(a) && xs.contains(b) && #[trigger] f(a) == #[trigger] f(b) implies a == b by {
        assert(same_path(taken[f(a)], target(dir, source, a as nat)));
        assert(same_path(taken[f(b)], target(dir, source, b as nat)));
        lemma_target_paths_injective(dir, source, a as nat, b as nat);
    }
    assert(vstd::relations::injective_on(f, xs));
    let ys = xs.map(f);
    lemma_map_size(xs, ys, f);
    let range = set_int_range(0, taken.len() as int);
    lemma_int_range(0, taken.len() as int);
    assert forall|i: int| ys.contains(i) implies range.contains(i) by {
        let m = choose|m: int| xs.contains(m) && f(m) == i;
    }
    lemma_len_subset(ys, range);
}

/// The keys of a list of paths.
pub open spec fn path_keys(s: Seq<Seq<char>>) -> Seq<u64> {
    Seq::new(s.len(), |i: int| path_key(s[i]))
}

/// Destinations already claimed, in place of a `HashSet` of `PathBuf`s: a
/// list of paths plus an index from a key of each path to where it is listed.
/// Two texts naming the same path count as one destination, as they do in
/// such a set.
pub struct Claimed {
    paths: Vec<String>,
    index: HashMap<u64, Vec<usize>>,
}

impl View for Claimed {
    type V = Seq<Seq<char>>;

    closed spec fn view(&self) -> Seq<Seq<char>> {
        string_views(self.paths@)
    }
}

impl Claimed {
    /// The index agrees with the paths.
    pub closed spec fn wf(&self) -> bool {
        indexes(self.index@, path_keys(self@))
    }

    /// Nothing claimed.
    pub fn new() -> (c: Claimed)
        ensures
            c.wf(),
            c@ == Seq::<Seq<char>>::empty(),
    {
        let c = Claimed { paths: Vec::new(), index: index_new() };
        assert(c@ =~= Seq::<Seq<char>>::empty());
        assert(path_keys(c@) =~= Seq::<u64>::empty());
        c
    }

    /// How many destinations are claimed.
    pub fn len(&self) -> (n: usize)
        ensures
            n == self@.len(),
    {
        self.paths.len()
    }

    /// Whether `p` is claimed, compared as paths are.
    pub fn contains(&self, p: &str) -> (r: bool)
        requires
            self.wf(),
        ensures
            r == holds_path(self@, p@),
    {
        let ghost v = self@;
        let ghost keys = path_keys(v);
        let k = path_key_of(p);
        let ps = bucket_of(&self.index, k);
        assert(self.index@.contains_key(k) || !self.index@.contains_key(k));
        assert(ps@ == positions_of(keys, k));
        proof {
            assert(self.paths.len() == self.paths@.len());
            lemma_positions_of(keys, k);
        }
        let mut j: usize = 0;
        while j < ps.len()
            invariant
                0 <= j <= ps@.len(),
                v == self@,
                keys == path_keys(v),
                ps@ == positions_of(keys, k),
                k == path_key(p@),
                forall|a: int| 0 <= a < ps@.len() ==> #[trigger] ps@[a] < v.len() && keys[ps@[a] as int] == k,
                forall|a: int| 0 <= a < j ==> !same_path(#[trigger] v[ps@[a] as int], p@),
            decreases ps@.len() - j,
        {
            let q = ps[j];
            assert(ps@[j as int] < v.len());
            assert(v[q as int] == self.paths@[q as int]@);
            if same_path_str(self.paths[q].as_str(), p) {
                return true;
            }
            j = j + 1;
        }
        proof {
            assert forall|i: int| 0 <= i < v.len() implies !same_path(#[trigger] v[i], p@) by {
                if same_path(v[i], p@) {
                    assert(keys[i] == path_key(v[i]));
                    assert(path_key(v[i]) == path_key(p@));
                    assert(ps@.contains(i as usize));
                    let a = choose|a: int| 0 <= a < ps@.len() && ps@[a] == i as usize;
                    assert(!same_path(v[ps@[a] as int], p@));
                }
            }
        }
        false
    }

    fn push(&mut self, p: String)
        requires
            old(self).wf(),
        ensures
            final(self).wf(),
            final(self)@ == old(self)@.push(p@),
    {
        let ghost keys = path_keys(self@);
        let ghost pv = p@;
        let k = path_key_of(p.as_str());
        let i = self.paths.len();
        index_push(&mut self.index, k, i, Ghost(keys));
        self.paths.push(p);
        assert(self@ =~= old(self)@.push(pv));
        assert(path_keys(self@) =~= keys.push(k));
    }

    /// Claim `p` unless it is claimed already, as `HashSet::insert` does;
    /// whether it was new.
    pub fn insert(&mut self, p: String) -> (added: bool)
        requires
            old(self).wf(),
        ensures
            final(self).wf(),
            added == !holds_path(old(self)@, p@),
            added ==> final(self)@ == old(self)@.push(p@),
            !added ==> final(self)@ == old(self)@,
    {
        if self.contains(p.as_str()) {
            false
        } else {
            self.push(p);
            true
        }
    }
}

/// Pick a free destination inside `dir` for a file named after `source`.
///
/// Routing flattens: a file's destination is its rule's directory plus its own
/// basename, wherever it came from. Two different files can therefore want the
/// same name, so the second gets a `-2` before its extension, the third `-3`,
/// and so on: the first name not yet claimed is taken, and claimed.
#[verifier::loop_isolation(false)]
pub fn claim(claimed: &mut Claimed, dir: &str, source: &str) -> (p: String)
    requires
        old(claimed).wf(),
        old(claimed)@.len() < u32::MAX,
    ensures
        final(claimed).wf(),
        p@ == claim_spec(old(claimed)@, dir@, source@),
        !holds_path(old(claimed)@, p@),
        final(claimed)@ == old(claimed)@.push(p@),
{
    let ghost taken = claimed@;
    let src = chars_of(source);
    let dirc = chars_of(dir);
    let name: Vec<char> = match file_name_chars(&src) {
        Some(n) => n,
        None => {
            let u = chars_of("unnamed");
            u
        },
    };
    assert(name@ == claim_name(source@));
    let stem = stem_chars(&name);
    let ext = ext_chars(&name);
    let mut n: u32 = 1;
    loop
        invariant
            1 <= n <= taken.len() + 1,
            taken == claimed@,
            claimed.wf(),
            taken.len() < u32::MAX,
            forall|m: nat| 1 <= m < n ==> holds_path(taken, #[trigger] target(dir@, source@, m)),
        decreases taken.len() + 1 - n,
    {
        let mut cand: Vec<char>;
        if n == 1 {
            cand = copy_chars(&name);
        } else {
            cand = copy_chars(&stem);
            cand.push('-');
            push_decimal(&mut cand, n as u64);
            match &ext {
                Some(e) => {
                    cand.push('.');
                    append_chars(&mut cand, e);
                },
                None => {},
            }
        }
        assert(cand@ == candidate(name@, n as nat));
        let path = string_of(&join_path(&dirc, &cand));
        assert(path@ == target(dir@, source@, n as nat));
        if !claimed.contains(path.as_str()) {
            claimed.push(path.clone());
            proof {
                assert(is_claim(taken, dir@, source@, n as nat));
                lemma_claim_unique(taken, dir@, source@, n as nat);
            }
            return path;
        }
        proof {
            assert forall|m: nat| 1 <= m <= n implies holds_path(taken, #[trigger] target(dir@, source@, m)) by {}
            lemma_pigeonhole(dir@, source@, taken, n as nat);
        }
        n = n + 1;
    }
}

/// The lexicographically least of some paths (the first of them among equal
/// ones); the survivor of a duplicate group.
pub open spec fn least_path(ps: Seq<Seq<char>>) -> Seq<char>
    decreases ps.len(),
{
    if ps.len() == 0 {
        Seq::empty()
    } else if ps.len() == 1 {
        ps[0]
    } else {
        let m = least_path(ps.drop_last());
        if lex_lt(ps.last(), m) {
            ps.last()
        } else {
            m
        }
    }
}

/// The hash of the duplicate group that supersedes `path`: the last group
/// listing it, unless it is that group's survivor, the least of its paths.
/// So which copy survives never depends on the order the files were found in.
pub open spec fn superseded_spec(groups: Seq<GroupView>, path: Seq<char>) -> Option<Seq<char>>
    decreases groups.len(),
{
    if groups.len() == 0 {
        None
    } else if holds_path(groups.last().paths, path) && !same_path(least_path(groups.last().paths), path) {
        Some(groups.last().hash)
    } else {
        superseded_spec(groups.drop_last(), path)
    }
}

/// The least path is one of the paths, and none comes before it.
pub proof fn lemma_least_path(ps: Seq<Seq<char>>)
    requires
        ps.len() >= 1,
    ensures
        ps.contains(least_path(ps)),
        forall|k: int| 0 <= k < ps.len() ==> !lex_lt(#[trigger] ps[k], least_path(ps)),
    decreases ps.len(),
{
    if ps.len() == 1 {
        assert(ps[0] == least_path(ps));
        crate::text::lemma_lex_irreflexive(ps[0]);
    } else {
        let init = ps.drop_last();
        lemma_least_path(init);
        let m = least_path(init);
        let j = choose|j: int| 0 <= j < init.len() && init[j] == m;
        assert(ps[j] == m);
        assert forall|k: int| 0 <= k < ps.len() implies !lex_lt(#[trigger] ps[k], least_path(ps)) by {
            if k < ps.len() - 1 {
                assert(ps[k] == init[k]);
                assert(!lex_lt(init[k], m));
                if lex_lt(ps.last(), m) && lex_lt(ps[k], ps.last()) {
                    crate::text::lemma_lex_transitive(ps[k], ps.last(), m);
                }
            } else {
                if lex_lt(ps.last(), m) {
                    crate::text::lemma_lex_irreflexive(ps.last());
                }
            }
        }
        if lex_lt(ps.last(), m) {
            assert(ps[ps.len() - 1] == ps.last());
        }
    }
}

/// The copies one group sets aside, in order: each of its paths, tagged with
/// the group's index, that is not the survivor `least`.
pub open spec fn group_copies(gi: int, ps: Seq<Seq<char>>, least: Seq<char>) -> Seq<(int, Seq<char>)>
    decreases ps.len(),
{
    if ps.len() == 0 {
        Seq::empty()
    } else {
        let r = group_copies(gi, ps.drop_last(), least);
        if same_path(ps.last(), least) {
            r
        } else {
            r.push((gi, ps.last()))
        }
    }
}

/// Every copy a list of groups sets aside, in order.
pub open spec fn copies_of(groups: Seq<GroupView>) -> Seq<(int, Seq<char>)>
    decreases groups.len(),
{
    if groups.len() == 0 {
        Seq::empty()
    } else {
        let g = groups.last();
        copies_of(groups.drop_last()) + group_copies(groups.len() - 1, g.paths, least_path(g.paths))
    }
}

proof fn lemma_group_copies(gi: int, ps: Seq<Seq<char>>, least: Seq<char>, path: Seq<char>)
    ensures
        (exists|k: int| 0 <= k < group_copies(gi, ps, least).len() && same_path(
            #[trigger] group_copies(gi, ps, least)[k].1,
            path,
        )) <==> (holds_path(ps, path) && !same_path(least, path)),
        forall|k: int| 0 <= k < group_copies(gi, ps, least).len() ==> #[trigger] group_copies(gi, ps, least)[k].0 == gi,
    decreases ps.len(),
{
    if ps.len() > 0 {
        let init = ps.drop_last();
        lemma_group_copies(gi, init, least, path);
        let r = group_copies(gi, init, least);
        let c = group_copies(gi, ps, least);
        assert forall|k: int| 0 <= k < r.len() implies c[k] == r[k] by {}
        if holds_path(ps, path) && !same_path(least, path) {
            let j = choose|j: int| 0 <= j < ps.len() && same_path(#[trigger] ps[j], path);
            if j < ps.len() - 1 {
                assert(same_path(init[j], path));
                let k = choose|k: int| 0 <= k < r.len() && same_path(#[trigger] r[k].1, path);
                assert(same_path(c[k].1, path));
            } else {
                assert(!same_path(ps.last(), least));
                assert(same_path(c[c.len() - 1].1, path));
            }
        }
        if exists|k: int| 0 <= k < c.len() && same_path(#[trigger] c[k].1, path) {
            let k = choose|k: int| 0 <= k < c.len() && same_path(#[trigger] c[k].1, path);
            if k < r.len() {
                assert(same_path(r[k].1, path));
                let j = choose|j: int| 0 <= j < init.len() && same_path(#[trigger] init[j], path);
                assert(same_path(ps[j], path));
            } else {
                assert(c[k].1 == ps.last());
                assert(same_path(ps[ps.len() - 1], path));
            }
        }
    }
}

/// The last of these copies that is `path`, compared as paths are.
pub open spec fn last_copy(cs: Seq<(int, Seq<char>)>, path: Seq<char>) -> Option<(int, Seq<char>)>
    decreases cs.len(),
{
    if cs.len() == 0 {
        None
    } else if same_path(cs.last().1, path) {
        Some(cs.last())
    } else {
        last_copy(cs.drop_last(), path)
    }
}

proof fn lemma_last_copy_append(a: Seq<(int, Seq<char>)>, b: Seq<(int, Seq<char>)>, path: Seq<char>)
    ensures
        last_copy(a + b, path) == if last_copy(b, path) is Some { last_copy(b, path) } else { last_copy(a, path) },
    decreases b.len(),
{
    if b.len() == 0 {
        assert(a + b =~= a);
    } else {
        assert((a + b).drop_last() =~= a + b.drop_last());
        assert((a + b).last() == b.last());
        lemma_last_copy_append(a, b.drop_last(), path);
    }
}

proof fn lemma_last_copy_found(b: Seq<(int, Seq<char>)>, path: Seq<char>)
    ensures
        last_copy(b, path) is Some <==> exists|k: int| 0 <= k < b.len() && same_path(#[trigger] b[k].1, path),
        last_copy(b, path) matches Some(c) ==> exists|k: int| 0 <= k < b.len() && b[k] == c,
    decreases b.len(),
{
    if b.len() > 0 {
        lemma_last_copy_found(b.drop_last(), path);
        if !same_path(b.last().1, path) {
            assert forall|k: int| 0 <= k < b.drop_last().len() implies b.drop_last()[k] == b[k] by {}
            if exists|k: int| 0 <= k < b.len() && same_path(#[trigger] b[k].1, path) {
                let k = choose|k: int| 0 <= k < b.len() && same_path(#[trigger] b[k].1, path);
                assert(k < b.len() - 1);
                assert(same_path(b.drop_last()[k].1, path));
            }
            if last_copy(b, path) is Some {
                let c = last_copy(b, path).unwrap();
                let k = choose|k: int| 0 <= k < b.drop_last().len() && b.drop_last()[k] == c;
                assert(b[k] == c);
            }
        } else {
            assert(same_path(b[b.len() - 1].1, path));
        }
    }
}

/// The supersession of a path, read off the last copy that is it.
proof fn lemma_superseded_by_copies(groups: Seq<GroupView>, path: Seq<char>)
    ensures
        superseded_spec(groups, path) == match last_copy(copies_of(groups), path) {
            Some(c) => Some(groups[c.0].hash),
            None => None,
        },
        forall|k: int| 0 <= k < copies_of(groups).len() ==> 0 <= #[trigger] copies_of(groups)[k].0 < groups.len(),
    decreases groups.len(),
{
    if groups.len() > 0 {
        let init = groups.drop_last();
        let g = groups.last();
        lemma_superseded_by_copies(init, path);
        let tail = group_copies(groups.len() - 1, g.paths, least_path(g.paths));
        assert(copies_of(groups) == copies_of(init) + tail);
        lemma_last_copy_append(copies_of(init), tail, path);
        lemma_last_copy_found(tail, path);
        lemma_group_copies(groups.len() - 1, g.paths, least_path(g.paths), path);
        if last_copy(tail, path) is Some {
            let c = last_copy(tail, path).unwrap();
            let j = choose|j: int| 0 <= j < tail.len() && tail[j] == c;
            assert(c.0 == groups.len() - 1);
        } else {
            match last_copy(copies_of(init), path) {
                Some(c) => {
                    lemma_last_copy_found(copies_of(init), path);
                    let j = choose|j: int| 0 <= j < copies_of(init).len() && copies_of(init)[j] == c;
                    assert(init[c.0] == groups[c.0]);
                },
                None => {},
            }
        }
        assert forall|k: int| 0 <= k < copies_of(groups).len() implies 0 <= #[trigger] copies_of(groups)[k].0 < groups.len() by {
            if k < copies_of(init).len() {
                assert(copies_of(groups)[k] == copies_of(init)[k]);
            } else {
                assert(copies_of(groups)[k] == tail[k - copies_of(init).len()]);
            }
        }
    }
}

pub open spec fn copy_keys(cs: Seq<(int, Seq<char>)>) -> Seq<u64> {
    Seq::new(cs.len(), |i: int| path_key(cs[i].1))
}

/// The last of the copies at positions `ps` that is `path`.
pub open spec fn last_copy_at(cs: Seq<(int, Seq<char>)>, ps: Seq<usize>, path: Seq<char>) -> Option<(int, Seq<char>)>
    decreases ps.len(),
{
    if ps.len() == 0 {
        None
    } else if same_path(cs[ps.last() as int].1, path) {
        Some(cs[ps.last() as int])
    } else {
        last_copy_at(cs, ps.drop_last(), path)
    }
}

/// Looking among the copies whose key is the path's finds the last copy
/// that is the path.
proof fn lemma_last_copy_by_key(cs: Seq<(int, Seq<char>)>, path: Seq<char>, m: int)
    requires
        0 <= m <= cs.len(),
        cs.len() <= usize::MAX,
    ensures
        last_copy(cs.take(m), path) == last_copy_at(cs, positions_of(copy_keys(cs).take(m), path_key(path)), path),
    decreases m,
{
    if m > 0 {
        lemma_last_copy_by_key(cs, path, m - 1);
        assert(cs.take(m).drop_last() == cs.take(m - 1));
        assert(cs.take(m).last() == cs[m - 1]);
        let ks = copy_keys(cs).take(m);
        assert(ks.drop_last() == copy_keys(cs).take(m - 1));
        assert(ks.last() == path_key(cs[m - 1].1));
        if ks.last() == path_key(path) {
            let p = positions_of(ks, path_key(path));
            assert(p.drop_last() == positions_of(ks.drop_last(), path_key(path)));
            assert(p.last() == (m - 1) as usize);
        }
    } else {
        assert(cs.take(0).len() == 0);
        assert(copy_keys(cs).take(0).len() == 0);
    }
}

/// The copies that duplicate groups set aside, indexed by path, so that
/// looking a path up does not read every group. It stands in for a
/// `HashMap` from path to group hash: a list of copies plus an index from a
/// key of each path to where it is listed.
pub struct Supersession {
    copies: Vec<(usize, String)>,
    hashes: Vec<String>,
    index: HashMap<u64, Vec<usize>>,
    groups: Ghost<Seq<GroupView>>,
}

pub open spec fn copy_views(cs: Seq<(usize, String)>) -> Seq<(int, Seq<char>)> {
    Seq::new(cs.len(), |i: int| (cs[i].0 as int, cs[i].1@))
}

impl Supersession {
    /// The groups this was built from.
    pub closed spec fn groups(&self) -> Seq<GroupView> {
        self.groups@
    }

    /// The index agrees with the groups.
    pub closed spec fn wf(&self) -> bool {
        &&& copy_views(self.copies@) == copies_of(self.groups@)
        &&& self.hashes@.len() == self.groups@.len()
        &&& forall|i: int| 0 <= i < self.hashes@.len() ==> #[trigger] self.hashes@[i]@ == self.groups@[i].hash
        &&& indexes(self.index@, copy_keys(copy_views(self.copies@)))
    }

    /// Index the copies of these groups.
    pub fn new(groups: &Vec<Group>) -> (s: Supersession)
        ensures
            s.wf(),
            s.groups() == group_views(groups@),
    {
        let ghost gv = group_views(groups@);
        let mut copies: Vec<(usize, String)> = Vec::new();
        let mut hashes: Vec<String> = Vec::new();
        let mut i: usize = 0;
        while i < groups.len()
            invariant
                0 <= i <= groups@.len(),
                gv == group_views(groups@),
                copy_views(copies@) == copies_of(gv.take(i as int)),
                hashes@.len() == i,
                forall|j: int| 0 <= j < i ==> #[trigger] hashes@[j]@ == gv[j].hash,
            decreases groups@.len() - i,
        {
            let g = &groups[i];
            let ghost before = copy_views(copies@);
            proof {
                assert(gv.take(i + 1).drop_last() == gv.take(i as int));
                assert(gv.take(i + 1).last() == g@);
            }
            let ps = &g.paths;
            let ghost pv = g@.paths;
            assert(pv == string_views(ps@));
            let mut m: usize = 0;
            if ps.len() > 0 {
                let mut k: usize = 1;
                assert(pv.take(1).len() == 1);
                assert(least_path(pv.take(1)) == pv[0]) by {
                    assert(pv.take(1)[0] == pv[0]);
                }
                while k < ps.len()
                    invariant
                        1 <= k <= ps@.len(),
                        m < k,
                        pv == string_views(ps@),
                        least_path(pv.take(k as int)) == pv[m as int],
                    decreases ps@.len() - k,
                {
                    proof {
                        assert(pv.take(k + 1).drop_last() == pv.take(k as int));
                        assert(pv.take(k + 1).last() == pv[k as int]);
                    }
                    if lex_less(&chars_of(ps[k].as_str()), &chars_of(ps[m].as_str())) {
                        m = k;
                    }
                    k = k + 1;
                }
                assert(pv.take(pv.len() as int) == pv);
            }
            let mut k: usize = 0;
            while k < ps.len()
                invariant
                    0 <= k <= ps@.len(),
                    g@ == gv[i as int],
                    pv == string_views(ps@),
                    pv == g@.paths,
                    ps@.len() > 0 ==> m < ps@.len() && least_path(pv) == pv[m as int],
                    copy_views(copies@) == before + group_copies(i as int, pv.take(k as int), least_path(pv)),
                decreases ps@.len() - k,
            {
                proof {
                    assert(pv.take(k + 1).drop_last() == pv.take(k as int));
                    assert(pv.take(k + 1).last() == pv[k as int]);
                }
                if !same_path_str(ps[k].as_str(), ps[m].as_str()) {
                    let ghost o = copy_views(copies@);
                    copies.push((i, ps[k].clone()));
                    proof {
                        assert(copy_views(copies@) =~= o.push((i as int, pv[k as int])));
                    }
                }
                k = k + 1;
            }
            proof {
                assert(pv.take(pv.len() as int) == pv);
                assert(copies_of(gv.take(i + 1)) == before + group_copies(i as int, pv, least_path(pv)));
            }
            hashes.push(g.hash.clone());
            i = i + 1;
        }
        assert(gv.take(groups@.len() as int) == gv);
        let mut keys: Vec<u64> = Vec::new();
        let mut j: usize = 0;
        while j < copies.len()
            invariant
                0 <= j <= copies@.len(),
                keys@ == copy_keys(copy_views(copies@)).take(j as int),
            decreases copies@.len() - j,
        {
            keys.push(path_key_of(copies[j].1.as_str()));
            j = j + 1;
            assert(keys@ =~= copy_keys(copy_views(copies@)).take(j as int));
        }
        assert(keys@ =~= copy_keys(copy_views(copies@)));
        let index = crate::index::bucket_positions(&keys);
        Supersession { copies, hashes, index, groups: Ghost(gv) }
    }

    /// The hash of the group that sets `path` aside, if any: the last group
    /// listing it anywhere but first.
    pub fn lookup(&self, path: &str) -> (h: Option<String>)
        requires
            self.wf(),
        ensures
            match h {
                Some(x) => superseded_spec(self.groups(), path@) == Some(x@),
                None => superseded_spec(self.groups(), path@) is None,
            },
    {
        let ghost cs = copy_views(self.copies@);
        let ghost keys = copy_keys(cs);
        let k = path_key_of(path);
        let ps = bucket_of(&self.index, k);
        assert(self.index@.contains_key(k) || !self.index@.contains_key(k));
        assert(ps@ == positions_of(keys, k));
        proof {
            assert(self.copies.len() == self.copies@.len());
            lemma_positions_of(keys, k);
            lemma_last_copy_by_key(cs, path@, cs.len() as int);
            assert(cs.take(cs.len() as int) == cs);
            assert(keys.take(cs.len() as int) == keys);
            lemma_superseded_by_copies(self.groups@, path@);
            assert forall|t: int| 0 <= t < cs.len() implies 0 <= #[trigger] cs[t].0 < self.groups@.len() by {
                assert(cs[t] == copies_of(self.groups@)[t]);
            }
        }
        let mut j: usize = ps.len();
        assert(ps@.take(ps@.len() as int) == ps@);
        while j > 0
            invariant
                0 <= j <= ps@.len(),
                cs == copy_views(self.copies@),
                keys == copy_keys(cs),
                ps@ == positions_of(keys, k),
                forall|a: int| 0 <= a < ps@.len() ==> #[trigger] ps@[a] < cs.len(),
                last_copy_at(cs, ps@, path@) == last_copy_at(cs, ps@.take(j as int), path@),
                last_copy(cs, path@) == last_copy_at(cs, ps@, path@),
                forall|t: int| 0 <= t < cs.len() ==> 0 <= #[trigger] cs[t].0 < self.groups@.len(),
                cs == copies_of(self.groups@),
                self.wf(),
            decreases j,
        {
            let q = ps[j - 1];
            assert(ps@[j - 1] < cs.len());
            proof {
                assert(ps@.take(j as int).drop_last() == ps@.take(j - 1));
                assert(ps@.take(j as int).last() == q);
                assert(cs[q as int] == (self.copies@[q as int].0 as int, self.copies@[q as int].1@));
            }
            if same_path_str(self.copies[q].1.as_str(), path) {
                let gi = self.copies[q].0;
                proof {
                    lemma_superseded_by_copies(self.groups@, path@);
                    assert(last_copy(cs, path@) == Some(cs[q as int]));
                    assert(0 <= cs[q as int].0 < self.groups@.len());
                    assert(self.hashes@[gi as int]@ == self.groups@[gi as int].hash);
                }
                return Some(self.hashes[gi].clone());
            }
            j = j - 1;
        }
        None
    }
}

/// Whether a file of this kind is to be opened as an archive: only when
/// extraction is on and its magic bytes name a container format.
pub fn wants_inspection(extract: bool, kind: &Kind) -> (f: Option<Format>)
    ensures
        f == (if extract { crate::ident::archive_of(kind@) } else { None }),
{
    if extract {
        kind.archive()
    } else {
        None
    }
}

/// Where each action sends files that are routed by name: every move's
/// destination and every planned member's, in order.
pub open spec fn destinations(acts: Seq<ActionView>) -> Seq<Seq<char>>
    decreases acts.len(),
{
    if acts.len() == 0 {
        Seq::empty()
    } else {
        destinations(acts.drop_last()) + match acts.last() {
            ActionView::Move { to, .. } => seq![to],
            ActionView::Extract { members, .. } => member_destinations(members),
            ActionView::Quarantine { .. } => Seq::empty(),
        }
    }
}

pub open spec fn member_destinations(ms: Seq<PlannedMemberView>) -> Seq<Seq<char>> {
    Seq::new(ms.len(), |i: int| ms[i].to)
}

/// The first 16 characters of a content hash, fewer if it is shorter.
pub open spec fn hash_prefix(h: Seq<char>) -> Seq<char> {
    if h.len() <= 16 { h } else { h.take(16) }
}

/// Every character is ASCII.
pub open spec fn is_ascii_text(s: Seq<char>) -> bool {
    forall|i: int| 0 <= i < s.len() ==> (s[i] as u32) < 128
}

/// Where archive members end up, one member at a time.
pub struct MemberFold {
    pub planned: Seq<PlannedMemberView>,
    pub unroutable: Seq<Seq<char>>,
    pub claimed: Seq<Seq<char>>,
}

/// One member: routed like a loose file named after its path inside the
/// archive, or listed as unroutable under the archive's path joined with it.
pub open spec fn member_step(
    acc: MemberFold,
    m: MemberView,
    from: Seq<char>,
    rs: Seq<crate::rules::RuleView>,
    dest: Seq<char>,
) -> MemberFold {
    match route_spec(rs, dest, m.name, m.kind) {
        Some(dir) => {
            let to = claim_spec(acc.claimed, dir, m.name);
            MemberFold {
                planned: acc.planned.push(PlannedMemberView { name: m.name, to: to, size: m.size }),
                unroutable: acc.unroutable,
                claimed: acc.claimed.push(to),
            }
        },
        None => MemberFold {
            planned: acc.planned,
            unroutable: acc.unroutable.push(crate::path::path_join(from, m.name)),
            claimed: acc.claimed,
        },
    }
}

/// All members, in order.
pub open spec fn fold_members(
    acc: MemberFold,
    ms: Seq<MemberView>,
    from: Seq<char>,
    rs: Seq<crate::rules::RuleView>,
    dest: Seq<char>,
) -> MemberFold
    decreases ms.len(),
{
    if ms.len() == 0 {
        acc
    } else {
        member_step(fold_members(acc, ms.drop_last(), from, rs, dest), ms.last(), from, rs, dest)
    }
}

/// Everything the routing pass decided.
pub struct Routed {
    pub actions: Vec<Action>,
    pub unroutable: Vec<String>,
}

/// The routing pass in progress: one decision per scanned file.
///
/// Duplicates are settled first so that only one copy of a given content is
/// ever routed; the rest are quarantined. Whatever survives is identified by
/// content and matched against the rules. Archives, when extraction is on,
/// are opened and their members routed individually, as though each had
/// been found loose on disk. Every destination a move or an extraction
/// writes is claimed once, so no two of them collide.
pub struct Router {
    actions: Vec<Action>,
    unroutable: Vec<String>,
    claimed: Claimed,
}

impl Router {
    pub closed spec fn actions_view(&self) -> Seq<ActionView> {
        action_views(self.actions@)
    }

    pub closed spec fn unroutable_view(&self) -> Seq<Seq<char>> {
        string_views(self.unroutable@)
    }

    pub closed spec fn claimed_view(&self) -> Seq<Seq<char>> {
        self.claimed@
    }

    /// The claimed destinations are exactly the moves' and planned members'
    /// destinations, and no path is claimed twice.
    pub closed spec fn wf(&self) -> bool {
        &&& self.claimed.wf()
        &&& paths_distinct(self.claimed_view())
        &&& destinations(self.actions_view()) == self.claimed_view()
    }

    /// Nothing decided yet.
    pub fn new() -> (r: Router)
        ensures
            r.wf(),
            r.actions_view() == Seq::<ActionView>::empty(),
            r.unroutable_view() == Seq::<Seq<char>>::empty(),
            forall|setup: ScanSetup| r.state() == scan_spec(setup, Seq::empty()),
    {
        let r = Router { actions: Vec::new(), unroutable: Vec::new(), claimed: Claimed::new() };
        assert(r.actions_view() =~= Seq::<ActionView>::empty());
        assert(r.unroutable_view() =~= Seq::<Seq<char>>::empty());
        assert(r.claimed_view() =~= Seq::<Seq<char>>::empty());
        r
    }

    /// How many destinations have been claimed.
    pub fn claimed_count(&self) -> (n: usize)
        ensures
            n == self.claimed_view().len(),
    {
        self.claimed.len()
    }

    fn push_action(&mut self, a: Action)
        ensures
            final(self).actions_view() == old(self).actions_view().push(a@),
            final(self).unroutable_view() == old(self).unroutable_view(),
            final(self).claimed == old(self).claimed,
    {
        let ghost o = self.actions@;
        let ghost v = a@;
        self.actions.push(a);
        assert(action_views(self.actions@) =~= action_views(o).push(v));
    }

    fn push_unroutable(&mut self, p: String)
        ensures
            final(self).actions_view() == old(self).actions_view(),
            final(self).unroutable_view() == old(self).unroutable_view().push(p@),
            final(self).claimed == old(self).claimed,
    {
        let ghost o = self.unroutable@;
        let ghost v = p@;
        self.unroutable.push(p);
        assert(string_views(self.unroutable@) =~= string_views(o).push(v));
    }

    /// Set a superseded copy aside. Quarantine mirrors the source layout, so
    /// two duplicates with the same basename cannot collide once set aside.
    pub fn quarantine_duplicate(&mut self, root: &str, entry: &Entry, hash: &str, settings: &Settings)
        requires
            old(self).wf(),
            is_ascii_text(hash@),
        ensures
            final(self).wf(),
            final(self).actions_view() == old(self).actions_view().push(
                ActionView::Quarantine {
                    from: entry.path@,
                    to: crate::path::path_join(settings.quarantine@, rel_of(entry.path@, root@)),
                    reason: "duplicate of content "@ + hash_prefix(hash@),
                },
            ),
            final(self).unroutable_view() == old(self).unroutable_view(),
    {
        let rel = rel_path(entry.path.as_str(), root);
        let to = join_str(settings.quarantine.as_str(), rel.as_str());
        let hc = chars_of(hash);
        let mut reason: Vec<char> = Vec::new();
        push_str(&mut reason, "duplicate of content ");
        let keep = if hc.len() <= 16 { hc.len() } else { 16 };
        let mut i: usize = 0;
        while i < keep
            invariant
                0 <= i <= keep <= hc@.len(),
                reason@ == "duplicate of content "@ + hc@.take(i as int),
            decreases keep - i,
        {
            reason.push(hc[i]);
            i = i + 1;
            assert(hc@.take(i as int) == hc@.take(i - 1).push(hc@[i - 1]));
        }
        assert(hc@.take(keep as int) == hash_prefix(hash@));
        let a = Action::Quarantine { from: entry.path.clone(), to, reason: string_of(&reason) };
        self.push_action(a);
        proof {
            let acts = self.actions_view();
            assert(acts.drop_last() == old(self).actions_view());
        }
    }

    /// Route a file found loose on disk: moved to a fresh name in the first
    /// matching rule's directory, or listed as unroutable.
    pub fn route_file(&mut self, root: &str, entry: &Entry, kind: &Kind, rules: &Rules)
        requires
            old(self).wf(),
            rules.wf(),
            old(self).claimed_view().len() < u32::MAX,
        ensures
            final(self).wf(),
            ({
                let rel = rel_of(entry.path@, root@);
                match route_spec(rules.rules_view(), rules.settings_spec().dest@, rel, kind@) {
                    Some(dir) => {
                        &&& final(self).actions_view() == old(self).actions_view().push(
                            ActionView::Move {
                                from: entry.path@,
                                to: claim_spec(old(self).claimed_view(), dir, rel),
                            },
                        )
                        &&& final(self).unroutable_view() == old(self).unroutable_view()
                    },
                    None => {
                        &&& final(self).actions_view() == old(self).actions_view()
                        &&& final(self).unroutable_view() == old(self).unroutable_view().push(entry.path@)
                    },
                }
            }),
    {
        let rel = rel_path(entry.path.as_str(), root);
        match rules.route(rel.as_str(), kind) {
            Some(dir) => {
                let ghost oc = self.claimed_view();
                let to = claim(&mut self.claimed, dir.as_str(), rel.as_str());
                let ghost tov = to@;
                let a = Action::Move { from: entry.path.clone(), to };
                self.push_action(a);
                proof {
                    let acts = self.actions_view();
                    assert(acts.drop_last() == old(self).actions_view());
                    assert(destinations(acts) == destinations(old(self).actions_view()).push(tov));
                    assert(self.claimed_view() == oc.push(tov));
                    assert(paths_distinct(self.claimed_view()));
                }
            },
            None => {
                self.push_unroutable(entry.path.clone());
            },
        }
    }

    /// The first step for a scanned file: a copy that a duplicate group sets
    /// aside is quarantined, and that file is done (`false`); any other file
    /// is left to be identified and routed (`true`), with nothing decided.
    pub fn settle_duplicate(
        &mut self,
        root: &str,
        entry: &Entry,
        copies: &Supersession,
        settings: &Settings,
    ) -> (open: bool)
        requires
            old(self).wf(),
            copies.wf(),
            forall|i: int| 0 <= i < copies.groups().len() ==> is_ascii_text(#[trigger] copies.groups()[i].hash),
        ensures
            final(self).wf(),
            final(self).unroutable_view() == old(self).unroutable_view(),
            match superseded_spec(copies.groups(), entry.path@) {
                Some(h) => !open && final(self).actions_view() == old(self).actions_view().push(
                    ActionView::Quarantine {
                        from: entry.path@,
                        to: crate::path::path_join(settings.quarantine@, rel_of(entry.path@, root@)),
                        reason: "duplicate of content "@ + hash_prefix(h),
                    },
                ),
                None => open && final(self).actions_view() == old(self).actions_view()
                    && final(self).claimed_view() == old(self).claimed_view(),
            },
            final(self).state() == match superseded_spec(copies.groups(), entry.path@) {
                Some(h) => duplicate_step(old(self).state(), root@, entry.path@, h, settings.quarantine@),
                None => old(self).state(),
            },
    {
        match copies.lookup(entry.path.as_str()) {
            Some(hash) => {
                proof {
                    lemma_superseded_is_a_group_hash(copies.groups(), entry.path@);
                }
                self.quarantine_duplicate(root, entry, hash.as_str(), settings);
                false
            },
            None => true,
        }
    }

    /// The step after identification: a file to be opened as an archive is
    /// handed back with its format, nothing decided yet; any other file is
    /// routed as `route_file` does.
    pub fn route_identified(&mut self, root: &str, entry: &Entry, kind: &Kind, extract: bool, rules: &Rules) -> (f: Option<Format>)
        requires
            old(self).wf(),
            rules.wf(),
            old(self).claimed_view().len() < u32::MAX,
        ensures
            final(self).wf(),
            f == (if extract { crate::ident::archive_of(kind@) } else { None }),
            f is Some ==> final(self).actions_view() == old(self).actions_view()
                && final(self).unroutable_view() == old(self).unroutable_view()
                && final(self).claimed_view() == old(self).claimed_view(),
            f is Some ==> final(self).state() == old(self).state(),
            f is None ==> final(self).state() == file_step(
                old(self).state(),
                root@,
                entry.path@,
                kind@,
                rules.rules_view(),
                rules.settings_spec().dest@,
            ),
            f is None ==> ({
                let rel = rel_of(entry.path@, root@);
                match route_spec(rules.rules_view(), rules.settings_spec().dest@, rel, kind@) {
                    Some(dir) => {
                        &&& final(self).actions_view() == old(self).actions_view().push(
                            ActionView::Move {
                                from: entry.path@,
                                to: claim_spec(old(self).claimed_view(), dir, rel),
                            },
                        )
                        &&& final(self).unroutable_view() == old(self).unroutable_view()
                    },
                    None => {
                        &&& final(self).actions_view() == old(self).actions_view()
                        &&& final(self).unroutable_view() == old(self).unroutable_view().push(entry.path@)
                    },
                }
            }),
    {
        match wants_inspection(extract, kind) {
            Some(format) => Some(format),
            None => {
                self.route_file(root, entry, kind, rules);
                None
            },
        }
    }

    /// Route an archive that was opened: its routable members are planned
    /// into one extraction (if there are any), the rest listed as unroutable;
    /// a refused archive, or one that could not be read, is quarantined
    /// whole with the reason.
    pub fn route_archive(
        &mut self,
        root: &str,
        entry: &Entry,
        format: Format,
        outcome: Result<Inspection, String>,
        rules: &Rules,
    )
        requires
            old(self).wf(),
            rules.wf(),
            outcome matches Ok(Inspection::Contents(ms)) ==> old(self).claimed_view().len() + ms@.len() < u32::MAX,
        ensures
            final(self).wf(),
            final(self).state() == archive_step(
                old(self).state(),
                root@,
                entry.path@,
                format,
                outcome_view(outcome),
                rules.rules_view(),
                rules.settings_spec().dest@,
                rules.settings_spec().quarantine@,
            ),
            ({
                let rel = rel_of(entry.path@, root@);
                let qto = crate::path::path_join(rules.settings_spec().quarantine@, rel);
                match outcome {
                    Ok(Inspection::Contents(ms)) => {
                        let f = fold_members(
                            MemberFold {
                                planned: Seq::empty(),
                                unroutable: old(self).unroutable_view(),
                                claimed: old(self).claimed_view(),
                            },
                            member_views(ms@),
                            entry.path@,
                            rules.rules_view(),
                            rules.settings_spec().dest@,
                        );
                        &&& final(self).unroutable_view() == f.unroutable
                        &&& final(self).actions_view() == if f.planned.len() > 0 {
                            old(self).actions_view().push(
                                ActionView::Extract { from: entry.path@, format: format, members: f.planned },
                            )
                        } else {
                            old(self).actions_view()
                        }
                    },
                    Ok(Inspection::Rejected(reason)) => {
                        &&& final(self).actions_view() == old(self).actions_view().push(
                            ActionView::Quarantine { from: entry.path@, to: qto, reason: reason@ },
                        )
                        &&& final(self).unroutable_view() == old(self).unroutable_view()
                    },
                    Err(e) => {
                        &&& final(self).actions_view() == old(self).actions_view().push(
                            ActionView::Quarantine {
                                from: entry.path@,
                                to: qto,
                                reason: "could not be read as an archive: "@ + e@,
                            },
                        )
                        &&& final(self).unroutable_view() == old(self).unroutable_view()
                    },
                }
            }),
    {
        let rel = rel_path(entry.path.as_str(), root);
        match outcome {
            Ok(Inspection::Contents(members)) => {
                let ghost ms = member_views(members@);
                let ghost acc0 = MemberFold {
                    planned: Seq::empty(),
                    unroutable: old(self).unroutable_view(),
                    claimed: old(self).claimed_view(),
                };
                let ghost rs = rules.rules_view();
                let ghost dest = rules.settings_spec().dest@;
                let mut planned: Vec<PlannedMember> = Vec::new();
                let mut i: usize = 0;
                while i < members.len()
                    invariant
                        0 <= i <= members@.len(),
                        ms == member_views(members@),
                        rs == rules.rules_view(),
                        dest == rules.settings_spec().dest@,
                        rules.wf(),
                        old(self).claimed_view().len() + ms.len() < u32::MAX,
                        self.actions_view() == old(self).actions_view(),
                        ({
                            let f = fold_members(acc0, ms.take(i as int), entry.path@, rs, dest);
                            &&& f.planned == planned_views(planned@)
                            &&& f.unroutable == self.unroutable_view()
                            &&& f.claimed == self.claimed_view()
                        }),
                        self.claimed_view() == old(self).claimed_view() + member_destinations(planned_views(planned@)),
                        self.claimed.wf(),
                        paths_distinct(self.claimed_view()),
                        planned@.len() <= i,
                    decreases members@.len() - i,
                {
                    let m = &members[i];
                    let ghost f0 = fold_members(acc0, ms.take(i as int), entry.path@, rs, dest);
                    proof {
                        assert(ms.take(i + 1).drop_last() == ms.take(i as int));
                        assert(ms.take(i + 1).last() == m@);
                        assert(fold_members(acc0, ms.take(i + 1), entry.path@, rs, dest)
                            == member_step(f0, m@, entry.path@, rs, dest));
                        assert(member_destinations(planned_views(planned@)).len() == planned@.len());
                        assert(f0.planned == planned_views(planned@));
                        assert(f0.claimed == self.claimed_view());
                    }
                    match rules.route(m.name.as_str(), &m.kind) {
                        Some(dir) => {
                            let ghost oc = self.claimed_view();
                            let ghost op = planned@;
                            assert(self.claimed_view().len() == old(self).claimed_view().len() + planned@.len());
                            assert(self.claimed@.len() == self.claimed_view().len());
                            let to = claim(&mut self.claimed, dir.as_str(), m.name.as_str());
                            let pm = PlannedMember { name: m.name.clone(), to, size: m.size };
                            planned.push(pm);
                            proof {
                                assert(planned_views(planned@) == planned_views(op).push(pm@));
                                assert(member_destinations(planned_views(planned@))
                                    == member_destinations(planned_views(op)).push(pm@.to));
                                assert(self.claimed_view() == oc.push(pm@.to));
                                assert(pm@ == PlannedMemberView { name: m@.name, to: claim_spec(f0.claimed, dir@, m@.name), size: m@.size });
                                let f1 = fold_members(acc0, ms.take(i + 1), entry.path@, rs, dest);
                                assert(f1.planned == planned_views(planned@));
                                assert(f1.unroutable == self.unroutable_view());
                                assert(f1.claimed == self.claimed_view());
                            }
                        },
                        None => {
                            let p = join_str(entry.path.as_str(), m.name.as_str());
                            self.push_unroutable(p);
                            proof {
                                let f1 = fold_members(acc0, ms.take(i + 1), entry.path@, rs, dest);
                                assert(f1.planned == planned_views(planned@));
                                assert(f1.unroutable == self.unroutable_view());
                                assert(f1.claimed == self.claimed_view());
                            }
                        },
                    }
                    i = i + 1;
                }
                assert(ms.take(members@.len() as int) == ms);
                if planned.len() > 0 {
                    let a = Action::Extract { from: entry.path.clone(), format, members: planned };
                    self.push_action(a);
                    proof {
                        let acts = self.actions_view();
                        assert(acts.drop_last() == old(self).actions_view());
                    }
                } else {
                    assert(member_destinations(planned_views(planned@)) =~= Seq::<Seq<char>>::empty());
                    assert(self.claimed_view() =~= old(self).claimed_view());
                }
            },
            Ok(Inspection::Rejected(reason)) => {
                let to = join_str(rules.settings().quarantine.as_str(), rel.as_str());
                let a = Action::Quarantine { from: entry.path.clone(), to, reason };
                self.push_action(a);
                proof {
                    let acts = self.actions_view();
                    assert(acts.drop_last() == old(self).actions_view());
                }
            },
            Err(e) => {
                let to = join_str(rules.settings().quarantine.as_str(), rel.as_str());
                let mut reason: Vec<char> = Vec::new();
                push_str(&mut reason, "could not be read as an archive: ");
                push_str(&mut reason, e.as_str());
                let a = Action::Quarantine { from: entry.path.clone(), to, reason: string_of(&reason) };
                self.push_action(a);
                proof {
                    let acts = self.actions_view();
                    assert(acts.drop_last() == old(self).actions_view());
                }
            },
        }
    }

    /// The decisions made.
    pub fn finish(self) -> (r: Routed)
        requires
            self.wf(),
        ensures
            action_views(r.actions@) == self.actions_view(),
            string_views(r.unroutable@) == self.unroutable_view(),
            paths_distinct(destinations(action_views(r.actions@))),
    {
        Routed { actions: self.actions, unroutable: self.unroutable }
    }
}


/// What one scan is run with: the scanned root, the duplicate groups found
/// in it, where set-aside files go, the rules with their destination root,
/// and whether archives are opened.
pub struct ScanSetup {
    pub root: Seq<char>,
    pub groups: Seq<GroupView>,
    pub quarantine: Seq<char>,
    pub rules: Seq<crate::rules::RuleView>,
    pub dest: Seq<char>,
    pub extract: bool,
}

/// What the routing pass has decided so far.
pub struct ScanState {
    pub actions: Seq<ActionView>,
    pub unroutable: Seq<Seq<char>>,
}

/// What was read of one scanned file: what its content says it is, and what
/// opening it as an archive gave (looked at only where it is opened).
pub struct Observation {
    pub kind: KindView,
    pub opened: Result<InspectionView, Seq<char>>,
}

impl Router {
    /// The decisions made so far.
    pub open spec fn state(&self) -> ScanState {
        ScanState { actions: self.actions_view(), unroutable: self.unroutable_view() }
    }
}

/// What an archive gave when it was opened: its members, a refusal, or the
/// reason it could not be read.
pub open spec fn outcome_view(outcome: Result<Inspection, String>) -> Result<InspectionView, Seq<char>> {
    match outcome {
        Ok(i) => Ok(i@),
        Err(e) => Err(e@),
    }
}

/// A copy that a duplicate group sets aside is quarantined under its path
/// relative to the root, with the group's hash as the reason.
pub open spec fn duplicate_step(
    st: ScanState,
    root: Seq<char>,
    path: Seq<char>,
    hash: Seq<char>,
    quarantine: Seq<char>,
) -> ScanState {
    ScanState {
        actions: st.actions.push(
            ActionView::Quarantine {
                from: path,
                to: path_join(quarantine, rel_of(path, root)),
                reason: "duplicate of content "@ + hash_prefix(hash),
            },
        ),
        unroutable: st.unroutable,
    }
}

/// A file routed by its kind and its path relative to the root: moved to the
/// first free name in the first matching rule's directory, or unroutable.
pub open spec fn file_step(
    st: ScanState,
    root: Seq<char>,
    path: Seq<char>,
    kind: KindView,
    rs: Seq<crate::rules::RuleView>,
    dest: Seq<char>,
) -> ScanState {
    let rel = rel_of(path, root);
    match route_spec(rs, dest, rel, kind) {
        Some(dir) => ScanState {
            actions: st.actions.push(
                ActionView::Move { from: path, to: claim_spec(destinations(st.actions), dir, rel) },
            ),
            unroutable: st.unroutable,
        },
        None => ScanState { actions: st.actions, unroutable: st.unroutable.push(path) },
    }
}

/// An opened archive: its routable members planned into one extraction (if
/// there are any) and the others unroutable; a refused or unreadable archive
/// quarantined whole with the reason.
pub open spec fn archive_step(
    st: ScanState,
    root: Seq<char>,
    path: Seq<char>,
    format: Format,
    opened: Result<InspectionView, Seq<char>>,
    rs: Seq<crate::rules::RuleView>,
    dest: Seq<char>,
    quarantine: Seq<char>,
) -> ScanState {
    let qto = path_join(quarantine, rel_of(path, root));
    match opened {
        Ok(InspectionView::Contents(ms)) => {
            let f = fold_members(
                MemberFold { planned: Seq::empty(), unroutable: st.unroutable, claimed: destinations(st.actions) },
                ms,
                path,
                rs,
                dest,
            );
            ScanState {
                actions: if f.planned.len() > 0 {
                    st.actions.push(ActionView::Extract { from: path, format: format, members: f.planned })
                } else {
                    st.actions
                },
                unroutable: f.unroutable,
            }
        },
        Ok(InspectionView::Rejected(reason)) => ScanState {
            actions: st.actions.push(ActionView::Quarantine { from: path, to: qto, reason: reason }),
            unroutable: st.unroutable,
        },
        Err(e) => ScanState {
            actions: st.actions.push(
                ActionView::Quarantine { from: path, to: qto, reason: "could not be read as an archive: "@ + e },
            ),
            unroutable: st.unroutable,
        },
    }
}

/// One scanned file: a superseded copy is set aside; otherwise an archive,
/// when extraction is on, is routed by what opening it gave, and any other
/// file by its kind.
pub open spec fn entry_step(st: ScanState, setup: ScanSetup, path: Seq<char>, obs: Observation) -> ScanState {
    match superseded_spec(setup.groups, path) {
        Some(h) => duplicate_step(st, setup.root, path, h, setup.quarantine),
        None => match (if setup.extract { crate::ident::archive_of(obs.kind) } else { None }) {
            Some(format) => archive_step(
                st,
                setup.root,
                path,
                format,
                obs.opened,
                setup.rules,
                setup.dest,
                setup.quarantine,
            ),
            None => file_step(st, setup.root, path, obs.kind, setup.rules, setup.dest),
        },
    }
}

/// A whole scan: the scanned files in walk order, each with what was read of it.
pub open spec fn scan_spec(setup: ScanSetup, entries: Seq<(Seq<char>, Observation)>) -> ScanState
    decreases entries.len(),
{
    if entries.len() == 0 {
        ScanState { actions: Seq::empty(), unroutable: Seq::empty() }
    } else {
        let (path, obs) = entries.last();
        entry_step(scan_spec(setup, entries.drop_last()), setup, path, obs)
    }
}

/// The file an action is about.
pub open spec fn action_from(a: ActionView) -> Seq<char> {
    match a {
        ActionView::Move { from, .. } => from,
        ActionView::Quarantine { from, .. } => from,
        ActionView::Extract { from, .. } => from,
    }
}

/// Members routed after those already decided keep what was decided before:
/// the unroutable list only grows at its end.
proof fn lemma_fold_keeps_unroutable(
    acc: MemberFold,
    ms: Seq<MemberView>,
    from: Seq<char>,
    rs: Seq<crate::rules::RuleView>,
    dest: Seq<char>,
)
    ensures
        fold_members(acc, ms, from, rs, dest).unroutable.len() >= acc.unroutable.len(),
        fold_members(acc, ms, from, rs, dest).unroutable.subrange(0, acc.unroutable.len() as int)
            == acc.unroutable,
    decreases ms.len(),
{
    if ms.len() > 0 {
        lemma_fold_keeps_unroutable(acc, ms.drop_last(), from, rs, dest);
        let f0 = fold_members(acc, ms.drop_last(), from, rs, dest);
        let f1 = fold_members(acc, ms, from, rs, dest);
        assert(f1 == member_step(f0, ms.last(), from, rs, dest));
        if f1.unroutable.len() > f0.unroutable.len() {
            assert(f1.unroutable == f0.unroutable.push(path_join(from, ms.last().name)));
            assert(f1.unroutable.subrange(0, acc.unroutable.len() as int)
                =~= f0.unroutable.subrange(0, acc.unroutable.len() as int));
        }
    } else {
        assert(acc.unroutable.subrange(0, acc.unroutable.len() as int) =~= acc.unroutable);
    }
}

/// Each scanned file gets at most one outcome: what was decided before stays
/// as it was, and at most one action is added, about that file.
pub proof fn lemma_entry_one_outcome(st: ScanState, setup: ScanSetup, path: Seq<char>, obs: Observation)
    ensures
        ({
            let n = entry_step(st, setup, path, obs);
            &&& st.actions.len() <= n.actions.len() <= st.actions.len() + 1
            &&& n.actions.subrange(0, st.actions.len() as int) == st.actions
            &&& n.actions.len() == st.actions.len() + 1 ==> action_from(n.actions.last()) == path
            &&& st.unroutable.len() <= n.unroutable.len()
            &&& n.unroutable.subrange(0, st.unroutable.len() as int) == st.unroutable
        }),
{
    let n = entry_step(st, setup, path, obs);
    assert(st.actions.subrange(0, st.actions.len() as int) =~= st.actions);
    assert(st.unroutable.subrange(0, st.unroutable.len() as int) =~= st.unroutable);
    assert(st.unroutable.push(path).subrange(0, st.unroutable.len() as int) =~= st.unroutable);
    if n.actions.len() == st.actions.len() + 1 {
        assert(n.actions.subrange(0, st.actions.len() as int) =~= st.actions);
    }
    match superseded_spec(setup.groups, path) {
        Some(h) => {},
        None => match (if setup.extract { crate::ident::archive_of(obs.kind) } else { None }) {
            Some(format) => {
                match obs.opened {
                    Ok(InspectionView::Contents(ms)) => {
                        lemma_fold_keeps_unroutable(
                            MemberFold {
                                planned: Seq::empty(),
                                unroutable: st.unroutable,
                                claimed: destinations(st.actions),
                            },
                            ms,
                            path,
                            setup.rules,
                            setup.dest,
                        );
                    },
                    _ => {},
                }
            },
            None => {},
        },
    }
}

/// Every action of a scan is about one of the scanned files, there are no
/// more actions than files, and where the walk listed no path twice no file
/// is the subject of two actions.
pub proof fn lemma_scan_outcomes(setup: ScanSetup, entries: Seq<(Seq<char>, Observation)>)
    ensures
        ({
            let acts = scan_spec(setup, entries).actions;
            &&& acts.len() <= entries.len()
            &&& forall|k: int| 0 <= k < acts.len()
                ==> exists|j: int| 0 <= j < entries.len() && #[trigger] entries[j].0 == action_from(#[trigger] acts[k])
            &&& (forall|i: int, j: int| 0 <= i < j < entries.len() ==> #[trigger] entries[i].0 != #[trigger] entries[j].0)
                ==> forall|a: int, b: int|
                    0 <= a < b < acts.len() ==> action_from(#[trigger] acts[a]) != action_from(#[trigger] acts[b])
        }),
    decreases entries.len(),
{
    if entries.len() > 0 {
        let prev = entries.drop_last();
        lemma_scan_outcomes(setup, prev);
        let (path, obs) = entries.last();
        let st = scan_spec(setup, prev);
        let acts = scan_spec(setup, entries).actions;
        lemma_entry_one_outcome(st, setup, path, obs);
        assert forall|k: int| 0 <= k < acts.len()
            implies exists|j: int| 0 <= j < entries.len() && #[trigger] entries[j].0 == action_from(#[trigger] acts[k]) by {
            if k < st.actions.len() {
                assert(acts[k] == acts.subrange(0, st.actions.len() as int)[k]);
                assert(acts[k] == st.actions[k]);
                let j = choose|j: int| 0 <= j < prev.len() && #[trigger] prev[j].0 == action_from(st.actions[k]);
                assert(entries[j] == prev[j]);
            } else {
                assert(entries[entries.len() - 1].0 == path);
            }
        }
        if forall|i: int, j: int| 0 <= i < j < entries.len() ==> #[trigger] entries[i].0 != #[trigger] entries[j].0 {
            assert forall|i: int, j: int| 0 <= i < j < prev.len() implies #[trigger] prev[i].0 != #[trigger] prev[j].0 by {
                assert(prev[i] == entries[i]);
                assert(prev[j] == entries[j]);
            }
            assert forall|a: int, b: int| 0 <= a < b < acts.len()
                implies action_from(#[trigger] acts[a]) != action_from(#[trigger] acts[b]) by {
                assert(acts[a] == acts.subrange(0, st.actions.len() as int)[a]);
                assert(acts[a] == st.actions[a]);
                if b < st.actions.len() {
                    assert(acts[b] == acts.subrange(0, st.actions.len() as int)[b]);
                    assert(acts[b] == st.actions[b]);
                } else {
                    let j = choose|j: int| 0 <= j < prev.len() && #[trigger] prev[j].0 == action_from(st.actions[a]);
                    assert(entries[j] == prev[j]);
                    assert(entries[entries.len() - 1].0 == path);
                    assert(entries[j].0 != entries[entries.len() - 1].0);
                }
            }
        }
    }
}

/// A scan decides the same plan whenever it is run on the same files with
/// the same contents and the same setup: the plan after a file is the step
/// of that file on the plan before it, and nothing else.
pub proof fn lemma_scan_deterministic(
    setup: ScanSetup,
    entries: Seq<(Seq<char>, Observation)>,
    path: Seq<char>,
    obs: Observation,
    again: Seq<(Seq<char>, Observation)>,
)
    requires
        again == entries.push((path, obs)),
    ensures
        scan_spec(setup, again) == entry_step(scan_spec(setup, entries), setup, path, obs),
{
    assert(again.drop_last() =~= entries);
}


/// Every copy but the survivor in each duplicate group is set aside: a path
/// of a group that is not the least of its paths is superseded.
pub proof fn lemma_copies_are_superseded(groups: Seq<GroupView>, i: int, k: int)
    requires
        0 <= i < groups.len(),
        0 <= k < groups[i].paths.len(),
        !same_path(groups[i].paths[k], least_path(groups[i].paths)),
    ensures
        superseded_spec(groups, groups[i].paths[k]) is Some,
    decreases groups.len(),
{
    let p = groups[i].paths[k];
    if i == groups.len() - 1 {
        assert(same_path(groups.last().paths[k], p));
        assert(holds_path(groups.last().paths, p));
    } else {
        lemma_copies_are_superseded(groups.drop_last(), i, k);
        assert(groups.drop_last()[i] == groups[i]);
    }
}

/// The survivor of a duplicate group, the least of its paths, is not set
/// aside on that group's account: unless another group lists it, it stays.
pub proof fn lemma_survivor_stays(groups: Seq<GroupView>, i: int)
    requires
        0 <= i < groups.len(),
        groups[i].paths.len() >= 1,
        forall|j: int| 0 <= j < groups.len() && j != i ==> !holds_path(#[trigger] groups[j].paths, least_path(groups[i].paths)),
    ensures
        superseded_spec(groups, least_path(groups[i].paths)) is None,
    decreases groups.len(),
{
    let p = least_path(groups[i].paths);
    let init = groups.drop_last();
    if i == groups.len() - 1 {
        assert(same_path(least_path(groups.last().paths), p));
        lemma_none_listing(init, p);
    } else {
        assert(init[i] == groups[i]);
        assert(!holds_path(groups[groups.len() - 1].paths, p));
        assert forall|j: int| 0 <= j < init.len() && j != i implies !holds_path(#[trigger] init[j].paths, least_path(init[i].paths)) by {
            assert(init[j] == groups[j]);
        }
        lemma_survivor_stays(init, i);
    }
}

proof fn lemma_none_listing(groups: Seq<GroupView>, p: Seq<char>)
    requires
        forall|j: int| 0 <= j < groups.len() ==> !holds_path(#[trigger] groups[j].paths, p),
    ensures
        superseded_spec(groups, p) is None,
    decreases groups.len(),
{
    if groups.len() > 0 {
        let init = groups.drop_last();
        assert(!holds_path(groups[groups.len() - 1].paths, p));
        assert forall|j: int| 0 <= j < init.len() implies !holds_path(#[trigger] init[j].paths, p) by {
            assert(init[j] == groups[j]);
        }
        lemma_none_listing(init, p);
    }
}


/// A hash that supersedes a path is the hash of one of the groups.
proof fn lemma_superseded_is_a_group_hash(groups: Seq<GroupView>, path: Seq<char>)
    ensures
        superseded_spec(groups, path) matches Some(h) ==> exists|i: int| 0 <= i < groups.len() && #[trigger] groups[i].hash == h,
    decreases groups.len(),
{
    if groups.len() > 0 {
        lemma_superseded_is_a_group_hash(groups.drop_last(), path);
        if superseded_spec(groups, path) is Some {
            if holds_path(groups.last().paths, path) && !same_path(least_path(groups.last().paths), path) {
                assert(groups[groups.len() - 1].hash == groups.last().hash);
            } else {
                let h = superseded_spec(groups, path).unwrap();
                let i = choose|i: int| 0 <= i < groups.drop_last().len() && #[trigger] groups.drop_last()[i].hash == h;
                assert(groups[i] == groups.drop_last()[i]);
            }
        }
    }
}


/// A claimed destination lies directly in the directory asked for: it is
/// that directory with one more plain component, a file name.
pub proof fn lemma_claim_in_dir(claimed: Seq<Seq<char>>, dir: Seq<char>, source: Seq<char>)
    ensures
        exists|c: Seq<char>|
            #![trigger crate::path::components(dir).push(c)]
            crate::path::is_normal(c) && (forall|k: int| 0 <= k < c.len() ==> c[k] != '/')
                && crate::path::components(claim_spec(claimed, dir, source)) == crate::path::components(dir).push(c),
{
    let n = choose|n: nat| is_claim(claimed, dir, source, n);
    let name = claim_name(source);
    lemma_claim_name_plain(source);
    lemma_candidate_plain(name, n);
    let c = candidate(name, n);
    crate::path::lemma_join_component(dir, c);
    assert(crate::path::components(claim_spec(claimed, dir, source)) == crate::path::components(dir).push(c));
}

} // verus!
