//! Paths as the library sees them: `/`-separated text, with the meaning std
//! gives a Unix path (components, file name, extension, joining).
use vstd::prelude::*;

use crate::text::{chars_of, string_of};

verus! {

/// The views of a sequence of character vectors.
pub open spec fn views(v: Seq<Vec<char>>) -> Seq<Seq<char>> {
    Seq::new(v.len(), |i: int| v[i]@)
}

/// `/` always separates; `\` does too when `backslash` is set.
pub open spec fn is_separator(c: char, backslash: bool) -> bool {
    c == '/' || (backslash && c == '\\')
}

/// `str::split` on the separators: the pieces between them, empty ones
/// included, so there is always at least one.
pub open spec fn split(s: Seq<char>, backslash: bool) -> Seq<Seq<char>>
    decreases s.len(),
{
    if s.len() == 0 {
        seq![Seq::empty()]
    } else {
        let init = split(s.drop_last(), backslash);
        if is_separator(s.last(), backslash) {
            init.push(Seq::empty())
        } else {
            init.update(init.len() - 1, init.last().push(s.last()))
        }
    }
}

/// The pieces joined with `/` between them.
pub open spec fn join(parts: Seq<Seq<char>>) -> Seq<char>
    decreases parts.len(),
{
    if parts.len() == 0 {
        Seq::empty()
    } else if parts.len() == 1 {
        parts[0]
    } else {
        join(parts.drop_last()) + seq!['/'] + parts.last()
    }
}

/// A piece that names something: neither empty nor `.`.
pub open spec fn is_normal(seg: Seq<char>) -> bool {
    seg.len() > 0 && seg != seq!['.']
}

/// The pieces that name something, in order.
pub open spec fn keep_normal(segs: Seq<Seq<char>>) -> Seq<Seq<char>>
    decreases segs.len(),
{
    if segs.len() == 0 {
        Seq::empty()
    } else {
        let init = keep_normal(segs.drop_last());
        if is_normal(segs.last()) {
            init.push(segs.last())
        } else {
            init
        }
    }
}

/// `Path::components`, each as text: a leading `/` for an absolute path,
/// a leading `.` for a path that starts with one, then every piece that names
/// something.
pub open spec fn components(p: Seq<char>) -> Seq<Seq<char>> {
    let segs = split(p, false);
    let head: Seq<Seq<char>> = if p.len() > 0 && p[0] == '/' {
        seq![seq!['/']]
    } else if segs[0] == seq!['.'] {
        seq![seq!['.']]
    } else {
        Seq::empty()
    };
    head + keep_normal(segs)
}

/// `Path::file_name`: the last component, unless it is `..` or there is no
/// named component at all.
pub open spec fn file_name(p: Seq<char>) -> Option<Seq<char>> {
    let named = keep_normal(split(p, false));
    if named.len() == 0 || named.last() == seq!['.', '.'] {
        None
    } else {
        Some(named.last())
    }
}

/// Index of the last `c` in `s`, or -1.
pub open spec fn last_index_of(s: Seq<char>, c: char) -> int
    decreases s.len(),
{
    if s.len() == 0 {
        -1
    } else if s.last() == c {
        s.len() - 1
    } else {
        last_index_of(s.drop_last(), c)
    }
}

/// `Path::file_stem` of a single file name: the part before the last `.`,
/// or the whole name when it has no `.` but a leading one, or is `..`.
pub open spec fn stem_of(name: Seq<char>) -> Seq<char> {
    let i = last_index_of(name, '.');
    if name == seq!['.', '.'] || i <= 0 {
        name
    } else {
        name.take(i)
    }
}

/// `Path::extension` of a single file name: the part after the last `.`,
/// if there is a `.` that is not the name's first character.
pub open spec fn ext_of(name: Seq<char>) -> Option<Seq<char>> {
    let i = last_index_of(name, '.');
    if name == seq!['.', '.'] || i <= 0 {
        None
    } else {
        Some(name.skip(i + 1))
    }
}

/// `Path::extension` of a whole path.
pub open spec fn extension(p: Seq<char>) -> Option<Seq<char>> {
    match file_name(p) {
        Some(n) => ext_of(n),
        None => None,
    }
}

/// `Path::is_absolute` on Unix.
pub open spec fn is_absolute(p: Seq<char>) -> bool {
    p.len() > 0 && p[0] == '/'
}

/// `Path::join`: an absolute `p` replaces `base`; otherwise `p` follows
/// `base` with one `/` between them unless `base` is empty or already ends
/// in one.
pub open spec fn path_join(base: Seq<char>, p: Seq<char>) -> Seq<char> {
    if is_absolute(p) {
        p
    } else if base.len() == 0 || base.last() == '/' {
        base + p
    } else {
        base + seq!['/'] + p
    }
}

/// Components rendered back as a path.
pub open spec fn render(c: Seq<Seq<char>>) -> Seq<char> {
    if c.len() > 0 && c[0] == seq!['/'] {
        seq!['/'] + join(c.drop_first())
    } else {
        join(c)
    }
}

/// `Path::strip_prefix`: what is left of `p` once `base`'s components are
/// taken off its front, or `None` if they are not its front.
pub open spec fn strip_prefix(p: Seq<char>, base: Seq<char>) -> Option<Seq<char>> {
    let cp = components(p);
    let cb = components(base);
    if cb.len() <= cp.len() && cp.take(cb.len() as int) == cb {
        Some(render(cp.skip(cb.len() as int)))
    } else {
        None
    }
}

pub proof fn lemma_split_len(s: Seq<char>, backslash: bool)
    ensures
        split(s, backslash).len() >= 1,
        split(s, backslash).len() <= s.len() + 1,
    decreases s.len(),
{
    if s.len() > 0 {
        lemma_split_len(s.drop_last(), backslash);
    }
}

/// No piece holds a separator.
pub proof fn lemma_split_pieces(s: Seq<char>, backslash: bool)
    ensures
        forall|i: int, j: int|
            0 <= i < split(s, backslash).len() && 0 <= j < split(s, backslash)[i].len()
                ==> !is_separator(#[trigger] split(s, backslash)[i][j], backslash),
    decreases s.len(),
{
    lemma_split_len(s, backslash);
    if s.len() > 0 {
        lemma_split_pieces(s.drop_last(), backslash);
        lemma_split_len(s.drop_last(), backslash);
        let init = split(s.drop_last(), backslash);
        let res = split(s, backslash);
        assert forall|i: int, j: int| 0 <= i < res.len() && 0 <= j < res[i].len()
            implies !is_separator(#[trigger] res[i][j], backslash) by {
            if i < init.len() - 1 {
                assert(res[i] == init[i]);
            } else if i == init.len() - 1 {
                if !is_separator(s.last(), backslash) {
                    assert(res[i] == init[i].push(s.last()));
                    if j < init[i].len() {
                        assert(res[i][j] == init[i][j]);
                    }
                } else {
                    assert(res[i] == init[i]);
                }
            }
        }
    }
}

/// Text without `/` is a single piece.
pub proof fn lemma_split_plain(s: Seq<char>)
    requires
        forall|j: int| 0 <= j < s.len() ==> s[j] != '/',
    ensures
        split(s, false) == seq![s],
    decreases s.len(),
{
    if s.len() > 0 {
        let d = s.drop_last();
        assert forall|j: int| 0 <= j < d.len() implies d[j] != '/' by {
            assert(d[j] == s[j]);
        }
        lemma_split_plain(d);
        assert(d.push(s.last()) == s);
        assert(s.last() == s[s.len() - 1]);
        let init = split(d, false);
        assert(split(s, false) == init.update(0, init.last().push(s.last())));
        assert(split(s, false) =~= seq![s]);
    } else {
        assert(s =~= Seq::<char>::empty());
        assert(split(s, false) =~= seq![s]);
    }
}

/// Splitting `a/b`, where `b` holds no `/`, gives `a`'s pieces then `b`.
pub proof fn lemma_split_after_slash(a: Seq<char>, b: Seq<char>)
    requires
        forall|j: int| 0 <= j < b.len() ==> b[j] != '/',
    ensures
        split(a + seq!['/'] + b, false) == split(a, false).push(b),
    decreases b.len(),
{
    let s = a + seq!['/'] + b;
    if b.len() == 0 {
        assert(s.drop_last() =~= a);
        assert(s.last() == '/');
        assert(b =~= Seq::<char>::empty());
    } else {
        let b0 = b.drop_last();
        assert forall|j: int| 0 <= j < b0.len() implies b0[j] != '/' by {
            assert(b0[j] == b[j]);
        }
        lemma_split_after_slash(a, b0);
        assert(s.drop_last() =~= a + seq!['/'] + b0);
        assert(s.last() == b.last());
        assert(b.last() == b[b.len() - 1]);
        assert(b0.push(b.last()) =~= b);
        let ih = split(a, false).push(b0);
        assert(split(s, false) == ih.update(ih.len() - 1, ih.last().push(s.last())));
        assert(split(s, false) =~= split(a, false).push(b));
    }
}

/// Joining a name that is one plain component onto a path adds just that
/// component.
pub proof fn lemma_join_component(base: Seq<char>, name: Seq<char>)
    requires
        forall|j: int| 0 <= j < name.len() ==> name[j] != '/',
        is_normal(name),
    ensures
        components(path_join(base, name)) == components(base).push(name),
{
    lemma_split_plain(name);
    let p = path_join(base, name);
    assert(!is_absolute(name)) by {
        assert(name[0] != '/');
    }
    if base.len() == 0 {
        assert(p == name);
        assert(split(base, false) =~= seq![Seq::<char>::empty()]);
        assert(keep_normal(seq![Seq::<char>::empty()]) =~= Seq::<Seq<char>>::empty()) by {
            reveal_with_fuel(keep_normal, 2);
            assert(seq![Seq::<char>::empty()].drop_last() =~= Seq::<Seq<char>>::empty());
        }
        assert(keep_normal(seq![name]) =~= seq![name]) by {
            reveal_with_fuel(keep_normal, 2);
            assert(seq![name].drop_last() =~= Seq::<Seq<char>>::empty());
            assert(Seq::<Seq<char>>::empty().push(name) =~= seq![name]);
        }
        assert(split(base, false)[0].len() == 0);
        assert(split(base, false)[0] != seq!['.']);
        assert(components(base) =~= Seq::<Seq<char>>::empty());
        assert(split(p, false)[0] == name);
        assert(components(p) =~= seq![name]);
    } else if base.last() == '/' {
        let a = base.drop_last();
        assert(base =~= a + seq!['/'] + Seq::<char>::empty());
        assert(p =~= a + seq!['/'] + name);
        lemma_split_after_slash(a, name);
        lemma_split_after_slash(a, Seq::<char>::empty());
        lemma_split_len(a, false);
        let sa = split(a, false);
        assert(split(p, false) == sa.push(name));
        assert(split(base, false) == sa.push(Seq::<char>::empty()));
        assert(sa.push(name).drop_last() == sa);
        assert(sa.push(Seq::<char>::empty()).drop_last() == sa);
        assert(keep_normal(split(base, false)) == keep_normal(sa));
        assert(keep_normal(split(p, false)) == keep_normal(sa).push(name));
        assert(p[0] == base[0]);
        assert(split(p, false)[0] == sa[0]);
        assert(split(base, false)[0] == sa[0]);
        assert(components(p) =~= components(base).push(name));
    } else {
        assert(p =~= base + seq!['/'] + name);
        lemma_split_after_slash(base, name);
        lemma_split_len(base, false);
        let sb = split(base, false);
        assert(split(p, false) == sb.push(name));
        assert(sb.push(name).drop_last() == sb);
        assert(keep_normal(split(p, false)) == keep_normal(sb).push(name));
        assert(p[0] == base[0]);
        assert(split(p, false)[0] == sb[0]);
        assert(components(p) =~= components(base).push(name));
    }
}

/// Splits `cs` at its separators.
pub fn split_chars(cs: &[char], backslash: bool) -> (parts: Vec<Vec<char>>)
    ensures
        views(parts@) == split(cs@, backslash),
{
    let mut parts: Vec<Vec<char>> = Vec::new();
    let mut cur: Vec<char> = Vec::new();
    let mut i: usize = 0;
    while i < cs.len()
        invariant
            0 <= i <= cs@.len(),
            views(parts@).push(cur@) == split(cs@.take(i as int), backslash),
        decreases cs@.len() - i,
    {
        let c = cs[i];
        let ghost before = cs@.take(i as int);
        proof {
            assert(cs@.take(i + 1).drop_last() == before);
            assert(cs@.take(i + 1).last() == c);
            lemma_split_len(before, backslash);
        }
        if c == '/' || (backslash && c == '\\') {
            let ghost old_parts = parts@;
            parts.push(cur);
            cur = Vec::new();
            proof {
                assert(views(parts@) == views(old_parts).push(parts@.last()@));
                assert(views(parts@).push(cur@) == split(before, backslash).push(Seq::empty()));
            }
        } else {
            let ghost old_cur = cur@;
            cur.push(c);
            proof {
                let sb = split(before, backslash);
                assert(sb.last() == old_cur);
                assert(views(parts@).push(cur@) == sb.update(sb.len() - 1, sb.last().push(c)));
            }
        }
        i = i + 1;
    }
    let ghost old_parts = parts@;
    parts.push(cur);
    proof {
        assert(cs@.take(cs@.len() as int) == cs@);
        assert(views(parts@) == views(old_parts).push(parts@.last()@));
    }
    parts
}

/// Whether a piece names something (is neither empty nor `.`).
pub fn is_normal_chars(seg: &[char]) -> (r: bool)
    ensures
        r == is_normal(seg@),
{
    if seg.len() == 0 {
        return false;
    }
    if seg.len() == 1 && seg[0] == '.' {
        assert(seg@ == seq!['.']);
        return false;
    }
    if seg.len() == 1 {
        assert(seg@ != seq!['.']) by {
            assert(seg@[0] != seq!['.'][0]);
        }
    }
    true
}

/// Whether a piece is `..`.
pub fn is_dot_dot(seg: &[char]) -> (r: bool)
    ensures
        r == (seg@ == seq!['.', '.']),
{
    if seg.len() == 2 && seg[0] == '.' && seg[1] == '.' {
        assert(seg@ == seq!['.', '.']);
        true
    } else {
        assert(seg@.len() != 2 || seg@[0] != seq!['.', '.'][0] || seg@[1] != seq!['.', '.'][1]);
        false
    }
}

/// The pieces of `parts` that name something.
pub fn keep_normal_parts(parts: &Vec<Vec<char>>) -> (kept: Vec<Vec<char>>)
    ensures
        views(kept@) == keep_normal(views(parts@)),
{
    let mut kept: Vec<Vec<char>> = Vec::new();
    let mut i: usize = 0;
    while i < parts.len()
        invariant
            0 <= i <= parts@.len(),
            views(kept@) == keep_normal(views(parts@).take(i as int)),
        decreases parts@.len() - i,
    {
        proof {
            assert(views(parts@).take(i + 1).drop_last() == views(parts@).take(i as int));
            assert(views(parts@).take(i + 1).last() == parts@[i as int]@);
        }
        if is_normal_chars(&parts[i]) {
            let ghost ok = kept@;
            kept.push(copy_chars(&parts[i]));
            assert(views(kept@) == views(ok).push(parts@[i as int]@));
        }
        i = i + 1;
    }
    assert(views(parts@).take(parts@.len() as int) == views(parts@));
    kept
}

/// A copy of `v`.
pub fn copy_chars(v: &[char]) -> (r: Vec<char>)
    ensures
        r@ == v@,
{
    let mut r: Vec<char> = Vec::new();
    let mut i: usize = 0;
    while i < v.len()
        invariant
            0 <= i <= v@.len(),
            r@ == v@.take(i as int),
        decreases v@.len() - i,
    {
        r.push(v[i]);
        i = i + 1;
        assert(r@ == v@.take(i as int));
    }
    assert(v@.take(v@.len() as int) == v@);
    r
}

/// The view of an optional character vector.
pub open spec fn opt_view(o: Option<Vec<char>>) -> Option<Seq<char>> {
    match o {
        Some(v) => Some(v@),
        None => None,
    }
}

/// `Path::file_name` of `p`.
pub fn file_name_chars(p: &[char]) -> (r: Option<Vec<char>>)
    ensures
        opt_view(r) == file_name(p@),
{
    let parts = split_chars(p, false);
    let named = keep_normal_parts(&parts);
    if named.len() == 0 {
        return None;
    }
    let last = &named[named.len() - 1];
    assert(views(named@).last() == last@);
    if is_dot_dot(last) {
        None
    } else {
        Some(copy_chars(last))
    }
}

/// Index of the last `c` in `s`, if any.
pub fn last_index(s: &[char], c: char) -> (r: Option<usize>)
    ensures
        match r {
            Some(i) => i as int == last_index_of(s@, c) && i < s@.len(),
            None => last_index_of(s@, c) == -1,
        },
{
    let mut i: usize = s.len();
    assert(s@.take(s@.len() as int) == s@);
    while i > 0
        invariant
            0 <= i <= s@.len(),
            last_index_of(s@, c) == last_index_of(s@.take(i as int), c),
        decreases i,
    {
        proof {
            assert(s@.take(i as int).drop_last() == s@.take(i - 1));
            assert(s@.take(i as int).last() == s@[i - 1]);
        }
        if s[i - 1] == c {
            return Some(i - 1);
        }
        i = i - 1;
    }
    None
}

/// Characters `from..to` of `s`.
pub fn slice_chars(s: &[char], from: usize, to: usize) -> (r: Vec<char>)
    requires
        from <= to <= s@.len(),
    ensures
        r@ == s@.subrange(from as int, to as int),
{
    let mut r: Vec<char> = Vec::new();
    let mut i: usize = from;
    while i < to
        invariant
            from <= i <= to <= s@.len(),
            r@ == s@.subrange(from as int, i as int),
        decreases to - i,
    {
        r.push(s[i]);
        i = i + 1;
        assert(r@ == s@.subrange(from as int, i as int));
    }
    r
}

/// `Path::file_stem` of a single file name.
pub fn stem_chars(name: &[char]) -> (r: Vec<char>)
    ensures
        r@ == stem_of(name@),
{
    let dd = is_dot_dot(name);
    match last_index(name, '.') {
        Some(i) => {
            if dd || i == 0 {
                copy_chars(name)
            } else {
                let r = slice_chars(name, 0, i);
                assert(r@ == name@.take(i as int));
                r
            }
        },
        None => copy_chars(name),
    }
}

/// `Path::extension` of a single file name.
pub fn ext_chars(name: &[char]) -> (r: Option<Vec<char>>)
    ensures
        opt_view(r) == ext_of(name@),
{
    let dd = is_dot_dot(name);
    let n = name.len();
    match last_index(name, '.') {
        Some(i) => {
            if dd || i == 0 {
                None
            } else {
                let r = slice_chars(name, i + 1, n);
                assert(r@ == name@.skip(i + 1));
                Some(r)
            }
        },
        None => None,
    }
}

/// `Path::extension` of a whole path.
pub fn extension_chars(p: &[char]) -> (r: Option<Vec<char>>)
    ensures
        opt_view(r) == extension(p@),
{
    match file_name_chars(p) {
        Some(n) => ext_chars(&n),
        None => None,
    }
}

/// Appends the characters of `s` to `out`.
pub fn append_chars(out: &mut Vec<char>, s: &[char])
    ensures
        final(out)@ == old(out)@ + s@,
{
    let mut i: usize = 0;
    while i < s.len()
        invariant
            0 <= i <= s@.len(),
            out@ == old(out)@ + s@.take(i as int),
        decreases s@.len() - i,
    {
        out.push(s[i]);
        i = i + 1;
        assert(s@.take(i as int) == s@.take(i - 1).push(s@[i - 1]));
    }
    assert(s@.take(s@.len() as int) == s@);
}

/// The pieces joined with `/`.
pub fn join_parts(parts: &Vec<Vec<char>>) -> (r: Vec<char>)
    ensures
        r@ == join(views(parts@)),
{
    let mut out: Vec<char> = Vec::new();
    if parts.len() == 0 {
        return out;
    }
    append_chars(&mut out, &parts[0]);
    assert(views(parts@).take(1) == seq![parts@[0]@]);
    let mut i: usize = 1;
    while i < parts.len()
        invariant
            1 <= i <= parts@.len(),
            out@ == join(views(parts@).take(i as int)),
        decreases parts@.len() - i,
    {
        proof {
            assert(views(parts@).take(i + 1).drop_last() == views(parts@).take(i as int));
            assert(views(parts@).take(i + 1).last() == parts@[i as int]@);
        }
        out.push('/');
        append_chars(&mut out, &parts[i]);
        i = i + 1;
    }
    assert(views(parts@).take(parts@.len() as int) == views(parts@));
    out
}

/// `Path::join`.
pub fn join_path(base: &[char], p: &[char]) -> (r: Vec<char>)
    ensures
        r@ == path_join(base@, p@),
{
    if p.len() > 0 && p[0] == '/' {
        return copy_chars(p);
    }
    let mut out = copy_chars(base);
    if base.len() > 0 && base[base.len() - 1] != '/' {
        out.push('/');
    }
    append_chars(&mut out, p);
    out
}

/// `Path::components`, each as text.
pub fn components_chars(p: &[char]) -> (r: Vec<Vec<char>>)
    ensures
        views(r@) == components(p@),
{
    let parts = split_chars(p, false);
    proof {
        lemma_split_len(p@, false);
    }
    let kept = keep_normal_parts(&parts);
    let mut out: Vec<Vec<char>> = Vec::new();
    if p.len() > 0 && p[0] == '/' {
        let root: Vec<char> = vec!['/'];
        assert(root@ == seq!['/']);
        out.push(root);
        assert(views(out@) == seq![seq!['/']]);
    } else if parts[0].len() == 1 && parts[0][0] == '.' {
        let cur: Vec<char> = vec!['.'];
        assert(cur@ == seq!['.']);
        out.push(cur);
        assert(parts@[0]@ == seq!['.']);
        assert(views(out@) == seq![seq!['.']]);
    } else {
        assert(parts@[0]@ != seq!['.']) by {
            if parts@[0]@.len() == 1 {
                assert(parts@[0]@[0] != seq!['.'][0]);
            }
        }
    }
    let ghost head = views(out@);
    let mut i: usize = 0;
    while i < kept.len()
        invariant
            0 <= i <= kept@.len(),
            views(out@) == head + views(kept@).take(i as int),
        decreases kept@.len() - i,
    {
        let ghost o = out@;
        out.push(copy_chars(&kept[i]));
        i = i + 1;
        assert(views(out@) == views(o).push(kept@[i - 1]@));
        assert(views(kept@).take(i as int) == views(kept@).take(i - 1).push(kept@[i - 1]@));
    }
    assert(views(kept@).take(kept@.len() as int) == views(kept@));
    out
}

/// `Path::strip_prefix`.
pub fn strip_prefix_chars(p: &[char], base: &[char]) -> (r: Option<Vec<char>>)
    ensures
        opt_view(r) == strip_prefix(p@, base@),
{
    let cp = components_chars(p);
    let cb = components_chars(base);
    if cb.len() > cp.len() {
        return None;
    }
    let mut i: usize = 0;
    while i < cb.len()
        invariant
            0 <= i <= cb@.len() <= cp@.len(),
            views(cp@) == components(p@),
            views(cb@) == components(base@),
            forall|j: int| 0 <= j < i ==> views(cp@)[j] == views(cb@)[j],
        decreases cb@.len() - i,
    {
        if !crate::text::chars_eq(&cp[i], &cb[i]) {
            assert(views(cp@).take(cb@.len() as int)[i as int] == cp@[i as int]@);
            assert(views(cb@)[i as int] == cb@[i as int]@);
            assert(views(cp@).take(cb@.len() as int) != views(cb@));

            return None;
        }
        i = i + 1;
    }
    assert(views(cp@).take(cb@.len() as int) =~= views(cb@));
    let mut rest: Vec<Vec<char>> = Vec::new();
    let mut k: usize = cb.len();
    while k < cp.len()
        invariant
            cb@.len() <= k <= cp@.len(),
            views(rest@) == views(cp@).subrange(cb@.len() as int, k as int),
        decreases cp@.len() - k,
    {
        let ghost o = rest@;
        rest.push(copy_chars(&cp[k]));
        k = k + 1;
        assert(views(rest@) == views(o).push(cp@[k - 1]@));
        assert(views(cp@).subrange(cb@.len() as int, k as int)
            == views(cp@).subrange(cb@.len() as int, k - 1).push(cp@[k - 1]@));
    }
    let ghost rv = views(cp@).skip(cb@.len() as int);
    assert(views(rest@) == rv);
    if rest.len() > 0 && rest[0].len() == 1 && rest[0][0] == '/' {
        assert(rv[0] == seq!['/']);
        let mut tail: Vec<Vec<char>> = Vec::new();
        let mut m: usize = 1;
        while m < rest.len()
            invariant
                1 <= m <= rest@.len(),
                views(tail@) == views(rest@).subrange(1, m as int),
            decreases rest@.len() - m,
        {
            let ghost o = tail@;
            tail.push(copy_chars(&rest[m]));
            m = m + 1;
            assert(views(tail@) == views(o).push(rest@[m - 1]@));
            assert(views(rest@).subrange(1, m as int)
                == views(rest@).subrange(1, m - 1).push(rest@[m - 1]@));
        }
        assert(views(tail@) == rv.drop_first());
        let mut out: Vec<char> = vec!['/'];
        let j = join_parts(&tail);
        append_chars(&mut out, &j);
        Some(out)
    } else {
        assert(!(rv.len() > 0 && rv[0] == seq!['/'])) by {
            if rv.len() > 0 && rv[0].len() == 1 {
                assert(rv[0] == rest@[0]@);
                if rv[0] == seq!['/'] {
                    assert(rest@[0]@[0] == '/');
                }
            }
        }
        Some(join_parts(&rest))
    }
}

/// `Path`'s equality: the same components.
pub open spec fn same_path(a: Seq<char>, b: Seq<char>) -> bool {
    components(a) == components(b)
}

/// Whether two paths are equal as `Path`s are.
pub fn same_path_str(a: &str, b: &str) -> (r: bool)
    ensures
        r == same_path(a@, b@),
{
    let xa = chars_of(a);
    let xb = chars_of(b);
    let ca = components_chars(&xa);
    let cb = components_chars(&xb);
    if ca.len() != cb.len() {
        assert(views(ca@).len() != views(cb@).len());
        return false;
    }
    let mut i: usize = 0;
    while i < ca.len()
        invariant
            0 <= i <= ca@.len(),
            ca@.len() == cb@.len(),
            views(ca@) == components(a@),
            views(cb@) == components(b@),
            forall|j: int| 0 <= j < i ==> views(ca@)[j] == views(cb@)[j],
        decreases ca@.len() - i,
    {
        if !crate::text::chars_eq(&ca[i], &cb[i]) {
            assert(views(ca@)[i as int] != views(cb@)[i as int]);
            return false;
        }
        i = i + 1;
    }
    assert(views(ca@) =~= views(cb@));
    true
}

/// The path of a file relative to the scan root: `path` with `root`'s
/// components taken off its front, or `path` itself when they are not its
/// front.
pub open spec fn rel_of(path: Seq<char>, root: Seq<char>) -> Seq<char> {
    match strip_prefix(path, root) {
        Some(r) => r,
        None => path,
    }
}

/// `path.strip_prefix(root).unwrap_or(path)`.
pub fn rel_path(path: &str, root: &str) -> (r: String)
    ensures
        r@ == rel_of(path@, root@),
{
    match strip_prefix_chars(&chars_of(path), &chars_of(root)) {
        Some(r) => string_of(&r),
        None => path.to_string(),
    }
}

/// `Path::join` on strings.
pub fn join_str(base: &str, p: &str) -> (r: String)
    ensures
        r@ == path_join(base@, p@),
{
    string_of(&join_path(&chars_of(base), &chars_of(p)))
}


/// A key for a path that paths equal as `Path`s share.
pub open spec fn path_key(p: Seq<char>) -> u64 {
    crate::index::text_key(join(components(p)))
}

/// The key of a path.
pub fn path_key_of(p: &str) -> (k: u64)
    ensures
        k == path_key(p@),
{
    let comps = components_chars(&chars_of(p));
    crate::index::text_key_chars(&join_parts(&comps))
}

} // verus!
