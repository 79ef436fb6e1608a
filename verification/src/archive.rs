//! Looking inside archives without writing anything, and deciding, member
//! by member, what an extraction may write.
use vstd::prelude::*;

use crate::ident::{identify_bytes, identify_spec, Kind, KindView};
use crate::path::{
    is_absolute, is_dot_dot, is_normal, is_separator, join, join_parts, keep_normal,
    keep_normal_parts, lemma_split_after_slash, lemma_split_len, lemma_split_pieces,
    lemma_split_plain, same_path, same_path_str, split, split_chars, views,
};
use crate::plan::{planned_views, PlannedMember, PlannedMemberView};
use crate::rules::Settings;
use crate::text::{
    chars_of, debug_quoted, debug_quoted_of, decimal, push_decimal, push_decimal_wide, push_str,
    string_of,
};

verus! {

/// An ASCII letter.
pub open spec fn is_ascii_alpha(c: char) -> bool {
    ('a' <= c && c <= 'z') || ('A' <= c && c <= 'Z')
}

/// A piece that names a Windows drive: a letter, a colon, perhaps more.
pub open spec fn is_drive(piece: Seq<char>) -> bool {
    piece.len() >= 2 && piece[1] == ':' && is_ascii_alpha(piece[0])
}

/// What `safe_name` makes of an archive member's declared path: `None` for
/// anything that tries to escape (empty, NUL, absolute, a drive letter at the
/// start of the name or of what is left once empty and `.` pieces are
/// dropped, a `..` piece, or nothing left at all), otherwise the pieces that
/// name something joined with `/`. Both `/` and `\` separate.
pub open spec fn safe_name_of(raw: Seq<char>) -> Option<Seq<char>> {
    if raw.len() == 0 || raw.contains('\0') {
        None
    } else if raw[0] == '/' || raw[0] == '\\' {
        None
    } else if raw.len() >= 2 && raw[1] == ':' && is_ascii_alpha(raw[0]) {
        None
    } else {
        let segs = split(raw, true);
        if segs.contains(seq!['.', '.']) {
            None
        } else {
            let kept = keep_normal(segs);
            if kept.len() == 0 || is_drive(kept[0]) {
                None
            } else {
                Some(join(kept))
            }
        }
    }
}

/// A path that stays under whatever directory it is joined to: non-empty,
/// relative, not starting with a drive, free of `\` and NUL, and every
/// `/`-piece names something other than `..`.
pub open spec fn stays_inside(n: Seq<char>) -> bool {
    &&& n.len() > 0
    &&& !is_absolute(n)
    &&& !is_drive(split(n, false)[0])
    &&& forall|k: int| 0 <= k < n.len() ==> n[k] != '\\' && n[k] != '\0'
    &&& forall|i: int|
        0 <= i < split(n, false).len() ==> is_normal(#[trigger] split(n, false)[i])
            && split(n, false)[i] != seq!['.', '.']
}

fn contains_char(cs: &[char], c: char) -> (r: bool)
    ensures
        r == cs@.contains(c),
{
    let mut i: usize = 0;
    while i < cs.len()
        invariant
            0 <= i <= cs@.len(),
            forall|j: int| 0 <= j < i ==> cs@[j] != c,
        decreases cs@.len() - i,
    {
        if cs[i] == c {
            assert(cs@[i as int] == c);
            return true;
        }
        i = i + 1;
    }
    false
}

/// Reduce an archive member's declared path to something that cannot escape.
///
/// Returns `None` for anything that tries: absolute paths, `..` traversal,
/// Windows drive letters, and embedded NULs. Backslashes are treated as
/// separators too, because an archive written on Windows uses them and a
/// crafted one uses them to sneak `..\..` past a `/`-only check.
#[verifier::loop_isolation(false)]
pub fn safe_name(raw: &str) -> (r: Option<String>)
    ensures
        match r {
            Some(n) => safe_name_of(raw@) == Some(n@) && stays_inside(n@),
            None => safe_name_of(raw@) is None,
        },
{
    let cs = chars_of(raw);
    if cs.len() == 0 || contains_char(&cs, '\0') {
        return None;
    }
    if cs[0] == '/' || cs[0] == '\\' {
        return None;
    }
    if cs.len() >= 2 && cs[1] == ':' && (('a' <= cs[0] && cs[0] <= 'z') || ('A' <= cs[0]
        && cs[0] <= 'Z')) {
        return None;
    }
    let parts = split_chars(&cs, true);
    let mut i: usize = 0;
    while i < parts.len()
        invariant
            0 <= i <= parts@.len(),
            forall|j: int| 0 <= j < i ==> views(parts@)[j] != seq!['.', '.'],
        decreases parts@.len() - i,
    {
        if is_dot_dot(&parts[i]) {
            assert(views(parts@)[i as int] == seq!['.', '.']);
            return None;
        }
        i = i + 1;
    }
    assert(!views(parts@).contains(seq!['.', '.']));
    let kept = keep_normal_parts(&parts);
    if kept.len() == 0 {
        return None;
    }
    if kept[0].len() >= 2 && kept[0][1] == ':' && (('a' <= kept[0][0] && kept[0][0] <= 'z') || (
    'A' <= kept[0][0] && kept[0][0] <= 'Z')) {
        assert(views(kept@)[0] == kept@[0]@);
        return None;
    }
    assert(views(kept@)[0] == kept@[0]@);
    let joined = join_parts(&kept);
    proof {
        lemma_safe_names_stay_inside(raw@);
    }
    Some(string_of(&joined))
}

/// Pieces without `/` split back into themselves once joined.
pub proof fn lemma_split_join(parts: Seq<Seq<char>>)
    requires
        parts.len() >= 1,
        forall|i: int, j: int|
            0 <= i < parts.len() && 0 <= j < parts[i].len() ==> #[trigger] parts[i][j] != '/',
    ensures
        split(join(parts), false) == parts,
    decreases parts.len(),
{
    if parts.len() == 1 {
        lemma_split_plain(parts[0]);
        assert(seq![parts[0]] == parts);
    } else {
        let init = parts.drop_last();
        assert forall|i: int, j: int| 0 <= i < init.len() && 0 <= j < init[i].len()
            implies #[trigger] init[i][j] != '/' by {
            assert(init[i] == parts[i]);
        }
        lemma_split_join(init);
        assert forall|j: int| 0 <= j < parts.last().len() implies parts.last()[j] != '/' by {
            assert(parts.last() == parts[parts.len() - 1]);
        }
        lemma_split_after_slash(join(init), parts.last());
        assert(init.push(parts.last()) == parts);
    }
}

/// A joined path starts with its first piece's first character.
pub proof fn lemma_join_first(parts: Seq<Seq<char>>)
    requires
        parts.len() >= 1,
        parts[0].len() > 0,
    ensures
        join(parts).len() > 0,
        join(parts)[0] == parts[0][0],
    decreases parts.len(),
{
    if parts.len() > 1 {
        lemma_join_first(parts.drop_last());
    }
}

/// A character that is not `/` occurs in a joined path only if some piece
/// holds it.
pub proof fn lemma_join_avoids(parts: Seq<Seq<char>>, c: char)
    requires
        c != '/',
        forall|i: int, j: int|
            0 <= i < parts.len() && 0 <= j < parts[i].len() ==> #[trigger] parts[i][j] != c,
    ensures
        forall|k: int| 0 <= k < join(parts).len() ==> join(parts)[k] != c,
    decreases parts.len(),
{
    if parts.len() > 1 {
        let init = parts.drop_last();
        assert forall|i: int, j: int| 0 <= i < init.len() && 0 <= j < init[i].len()
            implies #[trigger] init[i][j] != c by {
            assert(init[i] == parts[i]);
        }
        lemma_join_avoids(init, c);
        let last = parts.last();
        assert forall|j: int| 0 <= j < last.len() implies last[j] != c by {
            assert(last == parts[parts.len() - 1]);
        }
        let jn = join(parts);
        assert(jn == join(init) + seq!['/'] + last);
        assert forall|k: int| 0 <= k < jn.len() implies jn[k] != c by {
            if k < join(init).len() {
                assert(jn[k] == join(init)[k]);
            } else if k == join(init).len() {
                assert(jn[k] == '/');
            } else {
                assert(jn[k] == last[k - join(init).len() - 1]);
            }
        }
    } else if parts.len() == 1 {
        assert forall|k: int| 0 <= k < join(parts).len() implies join(parts)[k] != c by {
            assert(join(parts) == parts[0]);
        }
    }
}

/// The pieces that name something are pieces.
pub proof fn lemma_keep_normal_sub(segs: Seq<Seq<char>>)
    ensures
        forall|i: int|
            0 <= i < keep_normal(segs).len() ==> is_normal(#[trigger] keep_normal(segs)[i])
                && segs.contains(keep_normal(segs)[i]),
    decreases segs.len(),
{
    if segs.len() > 0 {
        let init = segs.drop_last();
        lemma_keep_normal_sub(init);
        let kn = keep_normal(segs);
        assert forall|i: int| 0 <= i < kn.len() implies is_normal(#[trigger] kn[i])
            && segs.contains(kn[i]) by {
            if i < keep_normal(init).len() {
                assert(kn[i] == keep_normal(init)[i]);
                let w = choose|w: int| 0 <= w < init.len() && init[w] == kn[i];
                assert(segs[w] == init[w]);
            } else {
                assert(kn[i] == segs.last());
                assert(segs[segs.len() - 1] == segs.last());
            }
        }
    }
}

/// Every character of a piece of `s` is a character of `s`.
pub proof fn lemma_split_from(s: Seq<char>, backslash: bool)
    ensures
        forall|i: int, j: int|
            0 <= i < split(s, backslash).len() && 0 <= j < split(s, backslash)[i].len()
                ==> s.contains(#[trigger] split(s, backslash)[i][j]),
    decreases s.len(),
{
    lemma_split_len(s, backslash);
    if s.len() > 0 {
        let init_s = s.drop_last();
        lemma_split_from(init_s, backslash);
        lemma_split_len(init_s, backslash);
        let init = split(init_s, backslash);
        let res = split(s, backslash);
        assert forall|i: int, j: int| 0 <= i < res.len() && 0 <= j < res[i].len()
            implies s.contains(#[trigger] res[i][j]) by {
            if i < init.len() - 1 {
                assert(res[i] == init[i]);
                let w = choose|w: int| 0 <= w < init_s.len() && init_s[w] == init[i][j];
                assert(s[w] == init_s[w]);
            } else if i == init.len() - 1 {
                if !is_separator(s.last(), backslash) {
                    assert(res[i] == init[i].push(s.last()));
                    if j < init[i].len() {
                        assert(res[i][j] == init[i][j]);
                        let w = choose|w: int| 0 <= w < init_s.len() && init_s[w] == init[i][j];
                        assert(s[w] == init_s[w]);
                    } else {
                        assert(res[i][j] == s[s.len() - 1]);
                    }
                } else {
                    assert(res[i] == init[i]);
                    let w = choose|w: int| 0 <= w < init_s.len() && init_s[w] == init[i][j];
                    assert(s[w] == init_s[w]);
                }
            }
        }
    }
}

/// Whatever `safe_name` lets through stays inside the directory it is
/// extracted to: it is relative, holds no `\` or NUL, and each of its pieces
/// names something other than `..`.
pub proof fn lemma_safe_names_stay_inside(raw: Seq<char>)
    requires
        safe_name_of(raw) is Some,
    ensures
        stays_inside(safe_name_of(raw).unwrap()),
{
    let segs = split(raw, true);
    let kept = keep_normal(segs);
    let n = join(kept);
    lemma_split_pieces(raw, true);
    lemma_split_from(raw, true);
    lemma_keep_normal_sub(segs);
    assert forall|i: int, j: int| 0 <= i < kept.len() && 0 <= j < kept[i].len()
        implies #[trigger] kept[i][j] != '/' && kept[i][j] != '\\' && kept[i][j] != '\0' by {
        let w = choose|w: int| 0 <= w < segs.len() && segs[w] == kept[i];
        assert(segs[w][j] == kept[i][j]);
        assert(!is_separator(segs[w][j], true));
        assert(raw.contains(segs[w][j]));
    }
    assert forall|i: int, j: int| 0 <= i < kept.len() && 0 <= j < kept[i].len()
        implies #[trigger] kept[i][j] != '/' by {}
    assert forall|i: int, j: int| 0 <= i < kept.len() && 0 <= j < kept[i].len()
        implies #[trigger] kept[i][j] != '\\' by {}
    assert forall|i: int, j: int| 0 <= i < kept.len() && 0 <= j < kept[i].len()
        implies #[trigger] kept[i][j] != '\0' by {}
    lemma_split_join(kept);
    lemma_join_first(kept);
    lemma_join_avoids(kept, '\\');
    lemma_join_avoids(kept, '\0');
    assert forall|i: int| 0 <= i < split(n, false).len() implies is_normal(
        #[trigger] split(n, false)[i],
    ) && split(n, false)[i] != seq!['.', '.'] by {
        assert(split(n, false)[i] == kept[i]);
        let w = choose|w: int| 0 <= w < segs.len() && segs[w] == kept[i];
        assert(segs[w] != seq!['.', '.']);
    }
}

/// Bytes of each member sampled to identify it during inspection.
pub const PEEK: usize = 8192;

/// One file inside an archive, as seen without extracting it.
#[derive(Debug)]
pub struct Member {
    /// The member's path inside the archive, sanitised and relative.
    pub name: String,
    /// Uncompressed size the archive's own header claims.
    pub size: u64,
    /// What the member's leading bytes say it is.
    pub kind: Kind,
}

pub struct MemberView {
    pub name: Seq<char>,
    pub size: u64,
    pub kind: KindView,
}

impl View for Member {
    type V = MemberView;

    open spec fn view(&self) -> MemberView {
        MemberView { name: self.name@, size: self.size, kind: self.kind@ }
    }
}

/// The outcome of looking inside an archive.
#[derive(Debug)]
pub enum Inspection {
    /// Safe to expand; these are its files.
    Contents(Vec<Member>),
    /// Refused. The archive gets quarantined whole and a human decides.
    Rejected(String),
}

pub enum InspectionView {
    Contents(Seq<MemberView>),
    Rejected(Seq<char>),
}

impl View for Inspection {
    type V = InspectionView;

    open spec fn view(&self) -> InspectionView {
        match self {
            Inspection::Contents(ms) => InspectionView::Contents(member_views(ms@)),
            Inspection::Rejected(r) => InspectionView::Rejected(r@),
        }
    }
}

pub open spec fn member_views(ms: Seq<Member>) -> Seq<MemberView> {
    Seq::new(ms.len(), |i: int| ms[i]@)
}

/// What an archive's own listing was read as, when it could not be read.
pub enum Unreadable {
    /// The zip central directory could not be read.
    Zip,
    /// Zip member at this index could not be read.
    ZipMember(usize),
    /// The tar stream could not be started.
    Tar,
    /// A tar entry could not be read.
    TarEntry,
}

/// The decision for one archive entry during a listing.
pub enum Admission {
    /// Not a regular file: passed over.
    Skip,
    /// The whole archive is refused, for this reason.
    Reject(String),
    /// A file to keep, under this sanitised name.
    Take(String),
}

pub enum AdmissionView {
    Skip,
    Reject(Seq<char>),
    Take(Seq<char>),
}

impl View for Admission {
    type V = AdmissionView;

    open spec fn view(&self) -> AdmissionView {
        match self {
            Admission::Skip => AdmissionView::Skip,
            Admission::Reject(r) => AdmissionView::Reject(r@),
            Admission::Take(n) => AdmissionView::Take(n@),
        }
    }
}

pub open spec fn escape_reason(raw: Seq<char>) -> Seq<char> {
    "member "@ + debug_quoted_of(raw) + " escapes the extraction directory"@
}

pub open spec fn unreadable_reason(u: Unreadable, detail: Seq<char>) -> Seq<char> {
    match u {
        Unreadable::Zip => "unreadable zip: "@ + detail,
        Unreadable::ZipMember(i) => "member "@ + decimal(i as nat) + ": "@ + detail,
        Unreadable::Tar => "unreadable tar: "@ + detail,
        Unreadable::TarEntry => "bad tar entry: "@ + detail,
    }
}

pub open spec fn zip_count_reason(count: usize, limit: usize) -> Seq<char> {
    "holds "@ + decimal(count as nat) + " members, over the "@ + decimal(limit as nat) + " limit"@
}

pub open spec fn tar_budget_reason(budget: u64) -> Seq<char> {
    "expands past the "@ + decimal(budget as nat) + " byte budget"@
}

pub open spec fn tar_members_reason(limit: usize) -> Seq<char> {
    "holds more than "@ + decimal(limit as nat) + " members"@
}

pub open spec fn budget_reason(total: nat, budget: u64) -> Seq<char> {
    "expands to "@ + decimal(total) + " bytes, over the "@ + decimal(budget as nat) + " byte budget"@
}

pub open spec fn ratio_reason(ratio: nat, limit: u64) -> Seq<char> {
    "expands "@ + decimal(ratio) + "x its own size, over the "@ + decimal(limit as nat) + "x limit"@
}

/// The reason an archive whose listing could not be read is refused.
pub fn unreadable(u: Unreadable, detail: &str) -> (r: String)
    ensures
        r@ == unreadable_reason(u, detail@),
{
    let mut out: Vec<char> = Vec::new();
    match u {
        Unreadable::Zip => push_str(&mut out, "unreadable zip: "),
        Unreadable::ZipMember(i) => {
            push_str(&mut out, "member ");
            push_decimal(&mut out, i as u64);
            push_str(&mut out, ": ");
        },
        Unreadable::Tar => push_str(&mut out, "unreadable tar: "),
        Unreadable::TarEntry => push_str(&mut out, "bad tar entry: "),
    }
    push_str(&mut out, detail);
    string_of(&out)
}

/// A zip is refused before any member is read when it holds too many.
pub fn zip_preflight(count: usize, settings: &Settings) -> (r: Option<String>)
    ensures
        match r {
            Some(m) => count > settings.max_members && m@ == zip_count_reason(
                count,
                settings.max_members,
            ),
            None => count <= settings.max_members,
        },
{
    if count > settings.max_members {
        let mut out: Vec<char> = Vec::new();
        push_str(&mut out, "holds ");
        push_decimal(&mut out, count as u64);
        push_str(&mut out, " members, over the ");
        push_decimal(&mut out, settings.max_members as u64);
        push_str(&mut out, " limit");
        Some(string_of(&out))
    } else {
        None
    }
}

/// How many leading bytes of a member of `size` bytes are read to identify
/// it: `PEEK`, or fewer for a smaller member.
pub open spec fn head_len_spec(size: u64) -> usize {
    if (PEEK as int) < (size as usize) as int {
        PEEK
    } else {
        size as usize
    }
}

/// How many leading bytes of a member to read.
pub fn head_len(size: u64) -> (n: usize)
    ensures
        n == head_len_spec(size),
        n <= PEEK,
{
    #[verifier::truncate]
    let s = size as usize;
    if PEEK < s {
        PEEK
    } else {
        s
    }
}

/// One read while filling a member's head buffer of `want` bytes, `filled`
/// of them so far; `got` is what the read returned (`None` for an error).
/// Gives how much is filled afterwards, or `None` when reading stops: at the
/// end of the data or on an error, since a short or failing read only means
/// a less confident identification, never a failed scan.
pub fn read_head_step(filled: usize, want: usize, got: Option<usize>) -> (next: Option<usize>)
    requires
        filled < want,
        got matches Some(n) ==> n <= want - filled,
    ensures
        match got {
            None => next is None,
            Some(n) => if n == 0 {
                next is None
            } else {
                next == Some((filled + n) as usize) && filled < filled + n <= want
            },
        },
{
    match got {
        None => None,
        Some(0) => None,
        Some(n) => Some(filled + n),
    }
}

fn escape_message(raw: &str) -> (r: String)
    ensures
        r@ == escape_reason(raw@),
{
    let mut out: Vec<char> = Vec::new();
    push_str(&mut out, "member ");
    let q = debug_quoted(raw);
    push_str(&mut out, q.as_str());
    push_str(&mut out, " escapes the extraction directory");
    string_of(&out)
}

/// The decision for one zip entry: directories are passed over, a name that
/// escapes refuses the archive, anything else is kept under its safe name.
pub open spec fn admit_zip_spec(is_dir: bool, raw: Seq<char>) -> AdmissionView {
    if is_dir {
        AdmissionView::Skip
    } else {
        match safe_name_of(raw) {
            None => AdmissionView::Reject(escape_reason(raw)),
            Some(n) => AdmissionView::Take(n),
        }
    }
}

/// Decide one zip entry.
pub fn admit_zip_member(is_dir: bool, raw: &str) -> (a: Admission)
    ensures
        a@ == admit_zip_spec(is_dir, raw@),
{
    if is_dir {
        return Admission::Skip;
    }
    match safe_name(raw) {
        None => Admission::Reject(escape_message(raw)),
        Some(n) => Admission::Take(n),
    }
}

/// `a + b`, or `u64::MAX` when that does not fit.
pub open spec fn saturating(a: u64, b: u64) -> u64 {
    if a + b > u64::MAX {
        u64::MAX
    } else {
        (a + b) as u64
    }
}

/// The sum of the members' declared sizes.
pub open spec fn total_size(ms: Seq<MemberView>) -> nat
    decreases ms.len(),
{
    if ms.len() == 0 {
        0
    } else {
        total_size(ms.drop_last()) + (ms.last().size as nat)
    }
}

/// What finishing a listing decides: over the byte budget, over the
/// expansion ratio (when the archive's own size is known to be non-zero), or
/// the members themselves.
pub open spec fn finish_spec(ms: Seq<MemberView>, archive_size: u64, settings: Settings) -> InspectionView {
    let total = total_size(ms);
    if total > settings.extract_budget {
        InspectionView::Rejected(budget_reason(total, settings.extract_budget))
    } else if archive_size > 0 && total / (archive_size as nat) > settings.max_ratio {
        InspectionView::Rejected(ratio_reason(total / (archive_size as nat), settings.max_ratio))
    } else {
        InspectionView::Contents(ms)
    }
}

/// An archive listing in progress: the members kept so far and, for a tar,
/// the bytes they expand to.
///
/// Every limit in the settings is checked while listing, at plan time, so that
/// a refusal shows up in the plan a human reads rather than halfway through
/// a commit.
pub struct Listing {
    members: Vec<Member>,
    expanded: u64,
}

impl Listing {
    /// The members kept so far.
    pub closed spec fn kept(&self) -> Seq<MemberView> {
        member_views(self.members@)
    }

    /// The bytes the kept tar members expand to, saturating.
    pub closed spec fn expanded(&self) -> u64 {
        self.expanded
    }

    /// An empty listing.
    pub fn new() -> (l: Listing)
        ensures
            l.kept() == Seq::<MemberView>::empty(),
            l.expanded() == 0,
    {
        let l = Listing { members: Vec::new(), expanded: 0 };
        assert(l.kept() =~= Seq::<MemberView>::empty());
        l
    }

    /// How many members are kept.
    pub fn len(&self) -> (n: usize)
        ensures
            n == self.kept().len(),
    {
        self.members.len()
    }

    /// Decide one tar entry. A tar is read start to finish, so the budget is
    /// enforced as entries arrive instead of after a full listing: a bomb must
    /// not be able to make the scan stream terabytes just to count them.
    pub fn admit_tar(&mut self, regular: bool, raw: &str, size: u64, settings: &Settings) -> (a: Admission)
        ensures
            final(self).kept() == old(self).kept(),
            !regular ==> a@ == AdmissionView::Skip && final(self).expanded() == old(self).expanded(),
            regular && safe_name_of(raw@) is None ==> a@ == AdmissionView::Reject(escape_reason(raw@))
                && final(self).expanded() == old(self).expanded(),
            regular && safe_name_of(raw@) is Some ==> {
                let e = saturating(old(self).expanded(), size);
                &&& final(self).expanded() == e
                &&& if e > settings.extract_budget {
                    a@ == AdmissionView::Reject(tar_budget_reason(settings.extract_budget))
                } else if old(self).kept().len() >= settings.max_members {
                    a@ == AdmissionView::Reject(tar_members_reason(settings.max_members))
                } else {
                    a@ == AdmissionView::Take(safe_name_of(raw@).unwrap())
                }
            },
    {
        if !regular {
            return Admission::Skip;
        }
        let name = match safe_name(raw) {
            None => {
                return Admission::Reject(escape_message(raw));
            },
            Some(n) => n,
        };
        self.expanded = self.expanded.saturating_add(size);
        if self.expanded > settings.extract_budget {
            let mut out: Vec<char> = Vec::new();
            push_str(&mut out, "expands past the ");
            push_decimal(&mut out, settings.extract_budget);
            push_str(&mut out, " byte budget");
            return Admission::Reject(string_of(&out));
        }
        if self.members.len() >= settings.max_members {
            let mut out: Vec<char> = Vec::new();
            push_str(&mut out, "holds more than ");
            push_decimal(&mut out, settings.max_members as u64);
            push_str(&mut out, " members");
            return Admission::Reject(string_of(&out));
        }
        Admission::Take(name)
    }

    /// Keep a member, identified from the bytes read off its head.
    pub fn record(&mut self, name: String, size: u64, head: &[u8])
        ensures
            final(self).kept() == old(self).kept().push(
                MemberView { name: name@, size: size, kind: identify_spec(head@, name@) },
            ),
            final(self).expanded() == old(self).expanded(),
    {
        let kind = identify_bytes(head, name.as_str());
        let ghost n = name@;
        self.members.push(Member { name, size, kind });
        assert(self.kept() =~= old(self).kept().push(MemberView { name: n, size: size, kind: identify_spec(head@, n) }));
    }

    /// Finish the listing: refuse an archive whose members expand past the
    /// byte budget, or (a gzip bomb being small on disk and enormous once
    /// expanded) past `max_ratio` times the archive's own size.
    pub fn finish(self, archive_size: u64, settings: &Settings) -> (r: Inspection)
        ensures
            r@ == finish_spec(self.kept(), archive_size, *settings),
    {
        let ghost ms = self.kept();
        let mut total: u128 = 0;
        let mut i: usize = 0;
        while i < self.members.len()
            invariant
                0 <= i <= self.members@.len(),
                ms == member_views(self.members@),
                total == total_size(ms.take(i as int)),
                total <= i * (u64::MAX as int),
            decreases self.members@.len() - i,
        {
            proof {
                assert(ms.take(i + 1).drop_last() == ms.take(i as int));
                assert(ms.take(i + 1).last() == self.members@[i as int]@);
                assert((i + 1) * (u64::MAX as int) == i * (u64::MAX as int) + u64::MAX) by (nonlinear_arith);
                assert(i * (u64::MAX as int) <= (u64::MAX as int) * (u64::MAX as int)) by (nonlinear_arith)
                    requires i <= u64::MAX;
            }
            total = total + self.members[i].size as u128;
            i = i + 1;
        }
        assert(ms.take(i as int) == ms);
        if total > settings.extract_budget as u128 {
            let mut out: Vec<char> = Vec::new();
            push_str(&mut out, "expands to ");
            push_decimal_wide(&mut out, total);
            push_str(&mut out, " bytes, over the ");
            push_decimal(&mut out, settings.extract_budget);
            push_str(&mut out, " byte budget");
            return Inspection::Rejected(string_of(&out));
        }
        if archive_size > 0 && total / (archive_size as u128) > settings.max_ratio as u128 {
            let mut out: Vec<char> = Vec::new();
            push_str(&mut out, "expands ");
            push_decimal_wide(&mut out, total / (archive_size as u128));
            push_str(&mut out, "x its own size, over the ");
            push_decimal(&mut out, settings.max_ratio);
            push_str(&mut out, "x limit");
            return Inspection::Rejected(string_of(&out));
        }
        Inspection::Contents(self.members)
    }
}

/// Where the plan sends a member of this (sanitised) name: the
/// destination of the last planned member with that name, compared as paths
/// are; `None` when the plan does not name it.
pub open spec fn planned_target(plan: Seq<PlannedMemberView>, name: Seq<char>) -> Option<Seq<char>>
    decreases plan.len(),
{
    if plan.len() == 0 {
        None
    } else if same_path(plan.last().name, name) {
        Some(plan.last().to)
    } else {
        planned_target(plan.drop_last(), name)
    }
}

/// Where extraction writes one archive entry: nothing but a regular file is
/// written, nor a file whose name does not sanitise; the rest go where the
/// plan sends them, and nowhere when the plan does not name them.
pub open spec fn extract_spec(plan: Seq<PlannedMemberView>, regular: bool, raw: Seq<char>) -> Option<Seq<char>> {
    if !regular {
        None
    } else {
        match safe_name_of(raw) {
            None => None,
            Some(n) => planned_target(plan, n),
        }
    }
}

/// Decide where one entry of an archive being extracted is written, if
/// anywhere.
///
/// The plan is the allow-list: a member it does not name is skipped, so an
/// archive swapped between scan and apply cannot introduce a file the plan
/// does not name.
pub fn extract(plan: &Vec<PlannedMember>, regular: bool, raw: &str) -> (to: Option<String>)
    ensures
        match to {
            Some(t) => extract_spec(planned_views(plan@), regular, raw@) == Some(t@),
            None => extract_spec(planned_views(plan@), regular, raw@) is None,
        },
{
    if !regular {
        return None;
    }
    let name = match safe_name(raw) {
        None => {
            return None;
        },
        Some(n) => n,
    };
    let ghost pv = planned_views(plan@);
    let mut k: usize = plan.len();
    assert(pv.take(plan@.len() as int) == pv);
    while k > 0
        invariant
            0 <= k <= plan@.len(),
            pv == planned_views(plan@),
            regular,
            safe_name_of(raw@) == Some(name@),
            planned_target(pv, name@) == planned_target(pv.take(k as int), name@),
        decreases k,
    {
        proof {
            assert(pv.take(k as int).drop_last() == pv.take(k - 1));
            assert(pv.take(k as int).last() == plan@[k - 1]@);
        }
        if same_path_str(plan[k - 1].name.as_str(), name.as_str()) {
            assert(planned_target(pv.take(k as int), name@) == Some(plan@[k - 1].to@));
            return Some(plan[k - 1].to.clone());
        }
        k = k - 1;
    }
    assert(pv.take(0) == Seq::<PlannedMemberView>::empty());
    None
}

/// The error for a member that held fewer bytes than its header declared.
pub open spec fn short_member_reason(to: Seq<char>, size: u64, held: u64) -> Seq<char> {
    to + ": archive declared "@ + decimal(size as nat) + " bytes but held "@ + decimal(held as nat)
}

/// Check a written member: it is finished only when exactly its declared
/// size was copied (copying is capped at that size, so a header that lies
/// about how small a member is cannot run the disk out).
pub fn check_written(to: &str, size: u64, copied: u64) -> (r: Result<(), String>)
    ensures
        match r {
            Ok(()) => copied == size,
            Err(m) => copied != size && m@ == short_member_reason(to@, size, copied),
        },
{
    if copied == size {
        Ok(())
    } else {
        let mut out: Vec<char> = Vec::new();
        push_str(&mut out, to);
        push_str(&mut out, ": archive declared ");
        push_decimal(&mut out, size);
        push_str(&mut out, " bytes but held ");
        push_decimal(&mut out, copied);
        Err(string_of(&out))
    }
}


/// Extraction writes only where the plan said: whatever an archive
/// holds at apply time, an entry written lands at the destination of a
/// planned member whose name is the entry's sanitised name.
pub proof fn lemma_extract_only_planned(plan: Seq<PlannedMemberView>, regular: bool, raw: Seq<char>)
    ensures
        extract_spec(plan, regular, raw) matches Some(t) ==> exists|k: int|
            0 <= k < plan.len() && #[trigger] plan[k].to == t && same_path(plan[k].name, safe_name_of(raw).unwrap()),
{
    if regular && safe_name_of(raw) is Some {
        lemma_planned_target_in_plan(plan, safe_name_of(raw).unwrap());
    }
}

proof fn lemma_planned_target_in_plan(plan: Seq<PlannedMemberView>, name: Seq<char>)
    ensures
        planned_target(plan, name) matches Some(t) ==> exists|k: int|
            0 <= k < plan.len() && #[trigger] plan[k].to == t && same_path(plan[k].name, name),
    decreases plan.len(),
{
    if plan.len() > 0 {
        lemma_planned_target_in_plan(plan.drop_last(), name);
        if same_path(plan.last().name, name) {
            assert(plan[plan.len() - 1].to == plan.last().to);
        } else if planned_target(plan, name) is Some {
            let k = choose|k: int|
                0 <= k < plan.drop_last().len() && #[trigger] plan.drop_last()[k].to == planned_target(plan, name).unwrap()
                    && same_path(plan.drop_last()[k].name, name);
            assert(plan[k] == plan.drop_last()[k]);
        }
    }
}


/// An archive whose listing is accepted expands to no more than the byte
/// budget and, when its own size is known to be non-zero, to no more than
/// `max_ratio` times that size.
pub proof fn lemma_contents_within_limits(ms: Seq<MemberView>, archive_size: u64, settings: Settings)
    ensures
        finish_spec(ms, archive_size, settings) is Contents ==> {
            &&& total_size(ms) <= settings.extract_budget
            &&& archive_size > 0 ==> total_size(ms) / (archive_size as nat) <= settings.max_ratio
        },
{
}

/// An archive within both limits is accepted with its members, and one past
/// either is refused: with a known non-zero size, the expansion ratio is
/// over the limit exactly when the members total at least `max_ratio + 1`
/// times the archive's size.
pub proof fn lemma_finish_decides_by_limits(ms: Seq<MemberView>, archive_size: u64, settings: Settings)
    ensures
        total_size(ms) <= settings.extract_budget
            && (archive_size == 0 || total_size(ms) < (settings.max_ratio + 1) * archive_size)
            ==> finish_spec(ms, archive_size, settings) == InspectionView::Contents(ms),
        total_size(ms) > settings.extract_budget ==> finish_spec(ms, archive_size, settings) is Rejected,
        archive_size > 0 && total_size(ms) >= (settings.max_ratio + 1) * archive_size
            ==> finish_spec(ms, archive_size, settings) is Rejected,
{
    let t = total_size(ms);
    let a = archive_size as nat;
    let r = settings.max_ratio as nat;
    if a > 0 {
        if t < (r + 1) * a {
            assert(t / a <= r) by (nonlinear_arith)
                requires
                    a > 0,
                    t < (r + 1) * a,
            {
                if t / a > r {
                    assert(t / a >= r + 1);
                    assert((t / a) * a >= (r + 1) * a);
                    assert(t >= (t / a) * a);
                }
            }
        } else {
            assert(t / a > r) by (nonlinear_arith)
                requires
                    a > 0,
                    t >= (r + 1) * a,
            {
                if t / a <= r {
                    assert((t / a) * a <= r * a);
                    assert(t < (t / a) * a + a);
                }
            }
        }
    }
}

/// With no `\` in it, a path splits the same on `/` alone as on both separators.
proof fn lemma_split_no_backslash(s: Seq<char>)
    requires
        forall|k: int| 0 <= k < s.len() ==> s[k] != '\\',
    ensures
        split(s, true) == split(s, false),
    decreases s.len(),
{
    if s.len() > 0 {
        lemma_split_no_backslash(s.drop_last());
    }
}

/// Pieces that all name something are kept as they are.
proof fn lemma_keep_normal_all(segs: Seq<Seq<char>>)
    requires
        forall|i: int| 0 <= i < segs.len() ==> is_normal(#[trigger] segs[i]),
    ensures
        keep_normal(segs) == segs,
    decreases segs.len(),
{
    if segs.len() > 0 {
        let init = segs.drop_last();
        assert forall|i: int| 0 <= i < init.len() implies is_normal(#[trigger] init[i]) by {
            assert(init[i] == segs[i]);
        }
        lemma_keep_normal_all(init);
        assert(is_normal(segs[segs.len() - 1]));
        assert(init.push(segs.last()) == segs);
    }
}

/// Ordinary names pass through unchanged: a name made of one or more
/// non-empty pieces joined by `/`, none of them `.` or `..`, and none holding
/// `/`, `\`, `:` or NUL, is its own safe name, whatever its pieces start
/// with (`proj/.gitignore` included).
pub proof fn lemma_ordinary_names_survive(parts: Seq<Seq<char>>)
    requires
        parts.len() >= 1,
        forall|i: int| 0 <= i < parts.len() ==> #[trigger] parts[i].len() > 0 && parts[i] != seq!['.']
            && parts[i] != seq!['.', '.'],
        forall|i: int, j: int| 0 <= i < parts.len() && 0 <= j < parts[i].len() ==> {
            let c = #[trigger] parts[i][j];
            c != '/' && c != '\\' && c != ':' && c != '\0'
        },
    ensures
        safe_name_of(join(parts)) == Some(join(parts)),
{
    let raw = join(parts);
    assert forall|i: int, j: int| 0 <= i < parts.len() && 0 <= j < parts[i].len()
        implies #[trigger] parts[i][j] != '/' by {}
    assert forall|i: int, j: int| 0 <= i < parts.len() && 0 <= j < parts[i].len()
        implies #[trigger] parts[i][j] != '\\' by {}
    assert forall|i: int, j: int| 0 <= i < parts.len() && 0 <= j < parts[i].len()
        implies #[trigger] parts[i][j] != ':' by {}
    assert forall|i: int, j: int| 0 <= i < parts.len() && 0 <= j < parts[i].len()
        implies #[trigger] parts[i][j] != '\0' by {}
    assert(parts[0].len() > 0);
    lemma_join_first(parts);
    lemma_join_avoids(parts, '\\');
    lemma_join_avoids(parts, ':');
    lemma_join_avoids(parts, '\0');
    assert(!raw.contains('\0'));
    assert(raw[0] == parts[0][0]);
    assert(raw.len() >= 2 ==> raw[1] != ':');
    lemma_split_no_backslash(raw);
    lemma_split_join(parts);
    assert(split(raw, true) == parts);
    assert(!parts.contains(seq!['.', '.']));
    assert forall|i: int| 0 <= i < parts.len() implies is_normal(#[trigger] parts[i]) by {}
    lemma_keep_normal_all(parts);
    assert(parts[0].len() >= 2 ==> parts[0][1] != ':');
    assert(!is_drive(parts[0]));
}

} // verus!
