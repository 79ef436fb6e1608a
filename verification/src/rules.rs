//! Routing rules: an ordered decision list, first match wins.
use vstd::prelude::*;

use crate::ident::{mime_of, Kind, KindView};
use crate::path::{
    extension, extension_chars, file_name, file_name_chars, join_path, opt_view, path_join, split,
    split_chars, views,
};
use crate::text::{chars_eq, chars_of, lowercase, lowercase_of, string_of};

verus! {

/// Limits and destinations shared by every rule.
pub struct Settings {
    /// Root under which relative rule destinations resolve.
    pub dest: String,
    /// Where duplicates and unsafe archive members are set aside.
    pub quarantine: String,
    /// Reject an archive whose members expand to more than this many bytes.
    pub extract_budget: u64,
    /// Reject an archive whose expansion exceeds this multiple of its own size.
    pub max_ratio: u64,
    /// Reject an archive holding more than this many members.
    pub max_members: usize,
}

/// Eight GiB of output across one archive.
pub fn default_budget() -> (b: u64)
    ensures
        b == 8 * 1024 * 1024 * 1024,
{
    8 * 1024 * 1024 * 1024
}

/// An archive may expand to a hundred times its own size.
pub fn default_ratio() -> (r: u64)
    ensures
        r == 100,
{
    100
}

/// An archive may hold ten thousand members.
pub fn default_max_members() -> (n: usize)
    ensures
        n == 10_000,
{
    10_000
}

impl Default for Settings {
    fn default() -> (s: Self)
        ensures
            s.dest@ == "sorted"@,
            s.quarantine@ == "sorted/.mote-quarantine"@,
            s.extract_budget == 8 * 1024 * 1024 * 1024,
            s.max_ratio == 100,
            s.max_members == 10_000,
    {
        Settings {
            dest: "sorted".to_string(),
            quarantine: "sorted/.mote-quarantine".to_string(),
            extract_budget: default_budget(),
            max_ratio: default_ratio(),
            max_members: default_max_members(),
        }
    }
}

#[verifier::external_type_specification]
#[verifier::external_body]
pub struct ExGlob(globset::Glob);

#[verifier::external_type_specification]
#[verifier::external_body]
pub struct ExGlobSetBuilder(globset::GlobSetBuilder);

#[verifier::external_type_specification]
#[verifier::external_body]
pub struct ExGlobSet(globset::GlobSet);

#[verifier::external_type_specification]
#[verifier::external_body]
pub struct ExGlobError(globset::Error);

/// Whether `Glob::new` accepts a pattern (with default options). A function
/// of the pattern text, fixed for a given build target: the default options
/// (backslash escaping among them) differ between platforms.
pub uninterp spec fn glob_parses(pattern: Seq<char>) -> bool;

/// The pattern text a `Glob` holds (its source, as `Glob::glob` returns it).
pub uninterp spec fn glob_text(g: globset::Glob) -> Seq<char>;

/// The patterns added to a `GlobSetBuilder`, in order.
pub uninterp spec fn builder_globs(b: globset::GlobSetBuilder) -> Seq<Seq<char>>;

/// The patterns a built `GlobSet` holds, in order.
pub uninterp spec fn set_globs(s: globset::GlobSet) -> Seq<Seq<char>>;

/// Whether `GlobSetBuilder::build` succeeds for these patterns: it compiles
/// them into matchers, and fails only when that compilation fails.
pub uninterp spec fn glob_set_builds(patterns: Seq<Seq<char>>) -> bool;

/// Whether one glob pattern (default options) matches a candidate path;
/// like `glob_parses`, fixed for a given build target.
pub uninterp spec fn glob_matches(pattern: Seq<char>, candidate: Seq<char>) -> bool;

/// `globset::Glob::new`.
///
/// Trusted: succeeds exactly when `glob_parses` holds of the pattern, and the
/// glob it returns holds the pattern text it was given (the source shows
/// `Glob { glob: self.glob.to_string(), .. }`).
#[verifier::external_body]
fn glob_new(pattern: &str) -> (r: Result<globset::Glob, globset::Error>)
    ensures
        r is Ok <==> glob_parses(pattern@),
        r matches Ok(g) ==> glob_text(g) == pattern@,
{
    globset::Glob::new(pattern)
}

/// `globset::GlobSetBuilder::new`.
///
/// Trusted: the builder starts with no patterns.
#[verifier::external_body]
fn builder_new() -> (b: globset::GlobSetBuilder)
    ensures
        builder_globs(b) == Seq::<Seq<char>>::empty(),
{
    globset::GlobSetBuilder::new()
}

/// `globset::GlobSetBuilder::add`.
///
/// Trusted: the glob is appended to the builder's patterns (the source pushes
/// it onto `pats`).
#[verifier::external_body]
fn builder_add(b: &mut globset::GlobSetBuilder, g: globset::Glob)
    ensures
        builder_globs(*final(b)) == builder_globs(*old(b)).push(glob_text(g)),
{
    b.add(g);
}

/// `globset::GlobSetBuilder::build`.
///
/// Trusted: succeeds exactly when `glob_set_builds` holds of the builder's
/// patterns, and the set holds those patterns.
#[verifier::external_body]
fn builder_build(b: &globset::GlobSetBuilder) -> (r: Result<globset::GlobSet, globset::Error>)
    ensures
        r is Ok <==> glob_set_builds(builder_globs(*b)),
        r matches Ok(s) ==> set_globs(s) == builder_globs(*b),
{
    b.build()
}

/// Whether some pattern in the sequence matches the candidate.
pub open spec fn glob_any(patterns: Seq<Seq<char>>, candidate: Seq<char>) -> bool {
    exists|k: int| 0 <= k < patterns.len() && glob_matches(#[trigger] patterns[k], candidate)
}

/// `globset::GlobSet::is_match` on a path given as text.
///
/// Trusted: documented as "true if any glob in this set matches the path
/// given"; each glob's matching is named by `glob_matches`.
#[verifier::external_body]
fn set_is_match(s: &globset::GlobSet, candidate: &str) -> (r: bool)
    ensures
        r == (exists|k: int|
            0 <= k < set_globs(*s).len() && glob_matches(#[trigger] set_globs(*s)[k], candidate@)),
{
    s.is_match(candidate)
}

/// `Display` of a `globset::Error`. Nothing is claimed of the text.
#[verifier::external_body]
fn glob_error_text(e: &globset::Error) -> String {
    e.to_string()
}

/// One line of the decision list.
///
/// A rule with no matcher at all matches everything, which is how a catch-all
/// is written. Within a rule the matchers are OR-ed: any one of them hitting
/// selects the rule.
#[derive(Debug)]
pub struct Rule {
    /// MIME types. A value ending in `/` matches by prefix, e.g. `image/`.
    pub types: Vec<String>,
    /// Bare extensions, without the dot, compared case-insensitively.
    pub ext: Vec<String>,
    /// Globs matched against the file name and the path relative to the root.
    pub glob: Vec<String>,
    /// Destination, relative to `settings.dest` unless absolute.
    pub to: String,
}

pub struct RuleView {
    pub types: Seq<Seq<char>>,
    pub ext: Seq<Seq<char>>,
    pub glob: Seq<Seq<char>>,
    pub to: Seq<char>,
}

pub open spec fn strings(v: Seq<String>) -> Seq<Seq<char>> {
    Seq::new(v.len(), |i: int| v[i]@)
}

impl View for Rule {
    type V = RuleView;

    open spec fn view(&self) -> RuleView {
        RuleView {
            types: strings(self.types@),
            ext: strings(self.ext@),
            glob: strings(self.glob@),
            to: self.to@,
        }
    }
}

pub open spec fn rule_views(rs: Seq<Rule>) -> Seq<RuleView> {
    Seq::new(rs.len(), |i: int| rs[i]@)
}

/// A parsed and compiled rules file.
///
/// Rules are ordered and the first match wins. That makes the file readable
/// top-to-bottom as a decision list rather than a set of competing patterns
/// whose precedence a user has to reason about.
pub struct Rules {
    pub settings: Settings,
    pub rules: Vec<Rule>,
    /// Compiled globs, one per rule, built at load time.
    globs: Vec<Option<globset::GlobSet>>,
}

/// Why a rules file was refused.
#[derive(Debug)]
pub enum RulesError {
    /// A glob of this rule did not parse.
    BadGlob { rule: usize, pattern: String, cause: String },
    /// This rule's globs parsed but could not be compiled into a set.
    Unbuildable { rule: usize, cause: String },
    /// There are no rules: every file would be unroutable.
    NoRules,
}

/// Index of the first pattern that does not parse, or -1.
pub open spec fn first_bad_pattern(pats: Seq<Seq<char>>) -> int
    decreases pats.len(),
{
    if pats.len() == 0 {
        -1
    } else if first_bad_pattern(pats.drop_last()) >= 0 {
        first_bad_pattern(pats.drop_last())
    } else if !glob_parses(pats.last()) {
        pats.len() - 1
    } else {
        -1
    }
}

/// A rule compiles when it has no globs, or all of them parse and they build
/// into a set.
pub open spec fn rule_compiles(r: RuleView) -> bool {
    r.glob.len() == 0 || (first_bad_pattern(r.glob) == -1 && glob_set_builds(r.glob))
}

/// Index of the first rule that does not compile, or -1.
pub open spec fn first_failing_rule(rs: Seq<RuleView>) -> int
    decreases rs.len(),
{
    if rs.len() == 0 {
        -1
    } else if first_failing_rule(rs.drop_last()) >= 0 {
        first_failing_rule(rs.drop_last())
    } else if !rule_compiles(rs.last()) {
        rs.len() - 1
    } else {
        -1
    }
}

/// The compiled globs agree with the rules: none for a rule without globs,
/// otherwise a set holding exactly the rule's patterns.
pub open spec fn globs_agree(rs: Seq<RuleView>, gs: Seq<Option<globset::GlobSet>>) -> bool {
    &&& gs.len() == rs.len()
    &&& forall|i: int|
        0 <= i < rs.len() ==> match #[trigger] gs[i] {
            None => rs[i].glob.len() == 0,
            Some(s) => rs[i].glob.len() > 0 && set_globs(s) == rs[i].glob,
        }
}

/// ASCII-case-insensitive equality, as `str::eq_ignore_ascii_case`.
pub open spec fn ascii_lower(c: char) -> char {
    if 'A' <= c && c <= 'Z' {
        ((c as u8) + 32) as char
    } else {
        c
    }
}

pub open spec fn eq_ignore_ascii_case(a: Seq<char>, b: Seq<char>) -> bool {
    a.len() == b.len() && forall|i: int| 0 <= i < a.len() ==> ascii_lower(a[i]) == ascii_lower(b[i])
}

/// Whether one `type` entry accepts a MIME type: a value ending in `/`
/// matches the MIME type's part before its first `/`; any other value the
/// whole type, ignoring ASCII case.
pub open spec fn type_hits(t: Seq<char>, mime: Seq<char>) -> bool {
    if t.len() > 0 && t.last() == '/' {
        split(mime, false)[0] == t.drop_last()
    } else {
        eq_ignore_ascii_case(mime, t)
    }
}

/// Whether a rule selects a file: a rule without matchers always does;
/// otherwise a `type` entry accepting the kind's MIME type, an `ext` entry
/// equal (ignoring ASCII case) to a non-empty extension, or a glob matching
/// the relative path or the file name.
pub open spec fn rule_matches(
    r: RuleView,
    kind: KindView,
    ext: Seq<char>,
    rel: Seq<char>,
    name: Seq<char>,
) -> bool {
    rule_matches_with(r, kind, ext, r.glob, rel, name)
}

/// `rule_matches`, with the globs tried against the path and the name taken
/// from `globs` (the patterns of whatever glob set is handed in, none if
/// none is) rather than from the rule.
pub open spec fn rule_matches_with(
    r: RuleView,
    kind: KindView,
    ext: Seq<char>,
    globs: Seq<Seq<char>>,
    rel: Seq<char>,
    name: Seq<char>,
) -> bool {
    if r.types.len() == 0 && r.ext.len() == 0 && r.glob.len() == 0 {
        true
    } else {
        (exists|k: int| 0 <= k < r.types.len() && type_hits(#[trigger] r.types[k], mime_of(kind)))
            || (ext.len() > 0 && exists|k: int|
            0 <= k < r.ext.len() && eq_ignore_ascii_case(#[trigger] r.ext[k], ext))
            || glob_any(globs, rel) || glob_any(globs, name)
    }
}

/// Index of the first rule at or after `i` that selects the file, or -1.
pub open spec fn first_match_from(
    rs: Seq<RuleView>,
    i: int,
    kind: KindView,
    ext: Seq<char>,
    rel: Seq<char>,
    name: Seq<char>,
) -> int
    decreases rs.len() - i,
{
    if i < 0 || i >= rs.len() {
        -1
    } else if rule_matches(rs[i], kind, ext, rel, name) {
        i
    } else {
        first_match_from(rs, i + 1, kind, ext, rel, name)
    }
}

/// The lower-cased extension of a path, or empty.
pub open spec fn lower_ext(rel: Seq<char>) -> Seq<char> {
    match extension(rel) {
        Some(e) => lowercase_of(e),
        None => Seq::empty(),
    }
}

/// Where a file goes: `None` if it has no file name or no rule selects it,
/// otherwise the first selecting rule's destination resolved against `dest`.
pub open spec fn route_spec(rs: Seq<RuleView>, dest: Seq<char>, rel: Seq<char>, kind: KindView) -> Option<Seq<char>> {
    match file_name(rel) {
        None => None,
        Some(f) => {
            let i = first_match_from(rs, 0, kind, lower_ext(rel), rel, lowercase_of(f));
            if i >= 0 {
                Some(path_join(dest, rs[i].to))
            } else {
                None
            }
        },
    }
}

fn lower_ascii(c: char) -> (r: char)
    ensures
        r == ascii_lower(c),
{
    if 'A' <= c && c <= 'Z' {
        ((c as u8) + 32) as char
    } else {
        c
    }
}

/// `str::eq_ignore_ascii_case` on characters.
pub fn chars_eq_ignore_ascii_case(a: &[char], b: &[char]) -> (r: bool)
    ensures
        r == eq_ignore_ascii_case(a@, b@),
{
    if a.len() != b.len() {
        return false;
    }
    let mut i: usize = 0;
    while i < a.len()
        invariant
            0 <= i <= a@.len(),
            a@.len() == b@.len(),
            forall|j: int| 0 <= j < i ==> ascii_lower(a@[j]) == ascii_lower(b@[j]),
        decreases a@.len() - i,
    {
        if lower_ascii(a[i]) != lower_ascii(b[i]) {
            return false;
        }
        i = i + 1;
    }
    true
}

fn type_hits_exec(t: &str, mime: &[char]) -> (r: bool)
    ensures
        r == type_hits(t@, mime@),
{
    let tc = chars_of(t);
    if tc.len() > 0 && tc[tc.len() - 1] == '/' {
        let parts = split_chars(mime, false);
        proof {
            crate::path::lemma_split_len(mime@, false);
        }
        let mut prefix: Vec<char> = Vec::new();
        let mut i: usize = 0;
        let last = tc.len() - 1;
        while i < last
            invariant
                0 <= i <= last,
                last == tc@.len() - 1,
                prefix@ == tc@.take(i as int),
            decreases tc@.len() - i,
        {
            prefix.push(tc[i]);
            i = i + 1;
            assert(prefix@ == tc@.take(i as int));
        }
        assert(prefix@ == tc@.drop_last());
        assert(views(parts@)[0] == parts@[0]@);
        chars_eq(&parts[0], &prefix)
    } else {
        chars_eq_ignore_ascii_case(mime, &tc)
    }
}

impl Rule {
    /// Whether this rule selects a file of this kind, extension (lower-cased,
    /// possibly empty), relative path and lower-cased name.
    #[verifier::loop_isolation(false)]
    pub fn matches(
        &self,
        kind: &Kind,
        ext: &[char],
        globs: Option<&globset::GlobSet>,
        rel: &str,
        name: &str,
    ) -> (r: bool)
        ensures
            r == rule_matches_with(
                self@,
                kind@,
                ext@,
                match globs {
                    None => Seq::empty(),
                    Some(s) => set_globs(*s),
                },
                rel@,
                name@,
            ),
    {
        if self.types.len() == 0 && self.ext.len() == 0 && self.glob.len() == 0 {
            return true;
        }
        let mime = chars_of(kind.mime());
        let mut k: usize = 0;
        while k < self.types.len()
            invariant
                0 <= k <= self.types@.len(),
                mime@ == mime_of(kind@),
                forall|j: int| 0 <= j < k ==> !type_hits(self@.types[j], mime_of(kind@)),
            decreases self.types@.len() - k,
        {
            if type_hits_exec(self.types[k].as_str(), &mime) {
                assert(type_hits(self@.types[k as int], mime_of(kind@)));
                return true;
            }
            k = k + 1;
        }
        if ext.len() > 0 {
            let mut k: usize = 0;
            while k < self.ext.len()
                invariant
                    0 <= k <= self.ext@.len(),
                    forall|j: int| 0 <= j < k ==> !eq_ignore_ascii_case(self@.ext[j], ext@),
                decreases self.ext@.len() - k,
            {
                let e = chars_of(self.ext[k].as_str());
                if chars_eq_ignore_ascii_case(&e, ext) {
                    assert(eq_ignore_ascii_case(self@.ext[k as int], ext@));
                    return true;
                }
                k = k + 1;
            }
        }
        match globs {
            Some(set) => {
                if set_is_match(set, rel) || set_is_match(set, name) {
                    return true;
                }
            },
            None => {},
        }
        false
    }
}

impl Rules {
    /// The rules, as seen by contracts.
    pub closed spec fn rules_view(&self) -> Seq<RuleView> {
        rule_views(self.rules@)
    }

    /// The settings, as seen by contracts.
    pub closed spec fn settings_spec(&self) -> Settings {
        self.settings
    }

    /// The settings.
    pub fn settings(&self) -> (s: &Settings)
        ensures
            *s == self.settings_spec(),
    {
        &self.settings
    }

    /// The compiled globs agree with the rules.
    pub closed spec fn wf(&self) -> bool {
        globs_agree(self.rules_view(), self.globs@)
    }

    /// Compile every rule's globs once, so matching a file is not a parse.
    ///
    /// Refuses the first rule whose globs do not parse or do not build, and
    /// refuses an empty rule list: every file would be unroutable.
    #[verifier::loop_isolation(false)]
    pub fn compile(settings: Settings, rules: Vec<Rule>) -> (r: Result<Rules, RulesError>)
        ensures
            match r {
                Ok(c) => {
                    &&& c.wf()
                    &&& c.settings_spec() == settings
                    &&& c.rules_view() == rule_views(rules@)
                    &&& first_failing_rule(rule_views(rules@)) == -1
                    &&& rules@.len() > 0
                },
                Err(RulesError::NoRules) => first_failing_rule(rule_views(rules@)) == -1
                    && rules@.len() == 0,
                Err(RulesError::BadGlob { rule, pattern, .. }) => {
                    let i = first_failing_rule(rule_views(rules@));
                    &&& i == rule as int
                    &&& first_bad_pattern(rule_views(rules@)[i].glob) >= 0
                    &&& pattern@ == rule_views(rules@)[i].glob[first_bad_pattern(
                        rule_views(rules@)[i].glob,
                    )]
                },
                Err(RulesError::Unbuildable { rule, .. }) => {
                    let i = first_failing_rule(rule_views(rules@));
                    &&& i == rule as int
                    &&& first_bad_pattern(rule_views(rules@)[i].glob) == -1
                },
            },
    {
        let ghost rv = rule_views(rules@);
        let mut globs: Vec<Option<globset::GlobSet>> = Vec::new();
        let mut i: usize = 0;
        while i < rules.len()
            invariant
                0 <= i <= rules@.len(),
                rv == rule_views(rules@),
                first_failing_rule(rv.take(i as int)) == -1,
                globs_agree(rv.take(i as int), globs@),
            decreases rules@.len() - i,
        {
            let rule = &rules[i];
            proof {
                assert(rv.take(i + 1).drop_last() == rv.take(i as int));
                assert(rv.take(i + 1).last() == rule@);
            }
            if rule.glob.len() == 0 {
                let ghost og = globs@;
                globs.push(None);
                proof {
                    assert forall|j: int| 0 <= j < i + 1 implies match #[trigger] globs@[j] {
                        None => rv.take(i + 1)[j].glob.len() == 0,
                        Some(s) => rv.take(i + 1)[j].glob.len() > 0 && set_globs(s) == rv.take(i + 1)[j].glob,
                    } by {
                        if j < i {
                            assert(globs@[j] == og[j]);
                            assert(rv.take(i + 1)[j] == rv.take(i as int)[j]);
                        }
                    }
                }
            } else {
                let mut builder = builder_new();
                let mut k: usize = 0;
                while k < rule.glob.len()
                    invariant
                        0 <= k <= rule.glob@.len(),
                        builder_globs(builder) == rule@.glob.take(k as int),
                        first_bad_pattern(rule@.glob.take(k as int)) == -1,
                    decreases rule.glob@.len() - k,
                {
                    proof {
                        assert(rule@.glob.take(k + 1).drop_last() == rule@.glob.take(k as int));
                        assert(rule@.glob.take(k + 1).last() == rule@.glob[k as int]);
                    }
                    match glob_new(rule.glob[k].as_str()) {
                        Ok(g) => {
                            builder_add(&mut builder, g);
                            assert(builder_globs(builder) == rule@.glob.take(k + 1));
                        },
                        Err(e) => {
                            proof {
                                lemma_first_bad_stable(rule@.glob, k as int + 1);
                                lemma_first_failing_at(rv, i as int);
                            }
                            return Err(RulesError::BadGlob {
                                rule: i,
                                pattern: rule.glob[k].clone(),
                                cause: glob_error_text(&e),
                            });
                        },
                    }
                    k = k + 1;
                }
                assert(rule@.glob.take(rule@.glob.len() as int) == rule@.glob);
                match builder_build(&builder) {
                    Ok(set) => {
                        let ghost og = globs@;
                        globs.push(Some(set));
                        proof {
                            assert forall|j: int| 0 <= j < i + 1 implies match #[trigger] globs@[j] {
                                None => rv.take(i + 1)[j].glob.len() == 0,
                                Some(s) => rv.take(i + 1)[j].glob.len() > 0 && set_globs(s) == rv.take(i + 1)[j].glob,
                            } by {
                                if j < i {
                                    assert(globs@[j] == og[j]);
                                    assert(rv.take(i + 1)[j] == rv.take(i as int)[j]);
                                }
                            }
                        }
                    },
                    Err(e) => {
                        proof {
                            lemma_first_failing_at(rv, i as int);
                        }
                        return Err(RulesError::Unbuildable { rule: i, cause: glob_error_text(&e) });
                    },
                }
            }
            i = i + 1;
        }
        assert(rv.take(rules@.len() as int) == rv);
        if rules.len() == 0 {
            return Err(RulesError::NoRules);
        }
        Ok(Rules { settings, rules, globs })
    }

    /// Make a rule destination absolute against `settings.dest`.
    pub fn resolve(&self, to: &str) -> (p: String)
        ensures
            p@ == path_join(self.settings_spec().dest@, to@),
    {
        let d = chars_of(self.settings.dest.as_str());
        let t = chars_of(to);
        string_of(&join_path(&d, &t))
    }

    /// The destination directory for a file, or `None` if no rule matches.
    ///
    /// `rel` is the path relative to the scan root; `kind` is what the file
    /// actually is, which may disagree with its extension.
    #[verifier::loop_isolation(false)]
    pub fn route(&self, rel: &str, kind: &Kind) -> (r: Option<String>)
        requires
            self.wf(),
        ensures
            match r {
                Some(p) => route_spec(self.rules_view(), self.settings_spec().dest@, rel@, kind@) == Some(p@),
                None => route_spec(self.rules_view(), self.settings_spec().dest@, rel@, kind@) is None,
            },
    {
        let rc = chars_of(rel);
        let fname = match file_name_chars(&rc) {
            Some(f) => f,
            None => {
                return None;
            },
        };
        let name = lowercase(string_of(&fname).as_str());
        let ext: Vec<char> = match extension_chars(&rc) {
            Some(e) => chars_of(lowercase(string_of(&e).as_str()).as_str()),
            None => Vec::new(),
        };
        assert(ext@ == lower_ext(rel@));
        let ghost rv = self.rules_view();
        let mut i: usize = 0;
        while i < self.rules.len()
            invariant
                0 <= i <= self.rules@.len(),
                rv == self.rules_view(),
                self.wf(),
                first_match_from(rv, 0, kind@, ext@, rel@, name@) == first_match_from(
                    rv,
                    i as int,
                    kind@,
                    ext@,
                    rel@,
                    name@,
                ),
            decreases self.rules@.len() - i,
        {
            let rule = &self.rules[i];
            proof {
                assert(rv[i as int] == rule@);
                assert(globs_agree(rv, self.globs@));
            }
            let hit = match &self.globs[i] {
                Some(set) => rule.matches(kind, &ext, Some(set), rel, name.as_str()),
                None => rule.matches(kind, &ext, None, rel, name.as_str()),
            };
            if hit {
                proof {
                    assert(file_name(rel@) == Some(fname@));
                    assert(first_match_from(rv, i as int, kind@, ext@, rel@, name@) == i);
                }
                return Some(self.resolve(rule.to.as_str()));
            }
            i = i + 1;
        }
        None
    }
}

/// First match wins: the destination `route` gives is the one of the first
/// rule that selects the file, so no later rule is consulted, and a rule
/// without matchers catches every file with a name that reaches it.
pub proof fn lemma_first_match_wins(
    rs: Seq<RuleView>,
    dest: Seq<char>,
    rel: Seq<char>,
    kind: KindView,
    k: int,
)
    requires
        0 <= k < rs.len(),
        rs[k].types.len() == 0 && rs[k].ext.len() == 0 && rs[k].glob.len() == 0,
        file_name(rel) is Some,
    ensures
        route_spec(rs, dest, rel, kind) is Some,
        exists|i: int|
            0 <= i <= k && route_spec(rs, dest, rel, kind) == Some(path_join(dest, rs[i].to)),
{
    let f = file_name(rel).unwrap();
    lemma_first_match_at_most(rs, 0, kind, lower_ext(rel), rel, lowercase_of(f), k);
}

proof fn lemma_first_match_at_most(
    rs: Seq<RuleView>,
    i: int,
    kind: KindView,
    ext: Seq<char>,
    rel: Seq<char>,
    name: Seq<char>,
    k: int,
)
    requires
        0 <= i <= k < rs.len(),
        rule_matches(rs[k], kind, ext, rel, name),
    ensures
        i <= first_match_from(rs, i, kind, ext, rel, name) <= k,
    decreases k - i,
{
    if !rule_matches(rs[i], kind, ext, rel, name) {
        lemma_first_match_at_most(rs, i + 1, kind, ext, rel, name, k);
    }
}

proof fn lemma_first_bad_stable(pats: Seq<Seq<char>>, k: int)
    requires
        1 <= k <= pats.len(),
        first_bad_pattern(pats.take(k - 1)) == -1,
        !glob_parses(pats[k - 1]),
    ensures
        first_bad_pattern(pats) == k - 1,
    decreases pats.len() - k,
{
    assert(pats.take(k).drop_last() == pats.take(k - 1));
    assert(pats.take(k).last() == pats[k - 1]);
    assert(first_bad_pattern(pats.take(k)) == k - 1);
    lemma_first_bad_extends(pats, k, k - 1);
}

proof fn lemma_first_bad_extends(pats: Seq<Seq<char>>, k: int, j: int)
    requires
        1 <= k <= pats.len(),
        j >= 0,
        first_bad_pattern(pats.take(k)) == j,
    ensures
        first_bad_pattern(pats) == j,
    decreases pats.len() - k,
{
    if k < pats.len() {
        assert(pats.take(k + 1).drop_last() == pats.take(k));
        lemma_first_bad_extends(pats, k + 1, j);
    } else {
        assert(pats.take(k) == pats);
    }
}

proof fn lemma_first_failing_at(rs: Seq<RuleView>, i: int)
    requires
        0 <= i < rs.len(),
        first_failing_rule(rs.take(i)) == -1,
        !rule_compiles(rs[i]),
    ensures
        first_failing_rule(rs) == i,
{
    assert(rs.take(i + 1).drop_last() == rs.take(i));
    assert(rs.take(i + 1).last() == rs[i]);
    lemma_first_failing_extends(rs, i + 1, i);
}

proof fn lemma_first_failing_extends(rs: Seq<RuleView>, k: int, j: int)
    requires
        1 <= k <= rs.len(),
        j >= 0,
        first_failing_rule(rs.take(k)) == j,
    ensures
        first_failing_rule(rs) == j,
    decreases rs.len() - k,
{
    if k < rs.len() {
        assert(rs.take(k + 1).drop_last() == rs.take(k));
        lemma_first_failing_extends(rs, k + 1, j);
    } else {
        assert(rs.take(k) == rs);
    }
}

/// Within a rule the matchers are OR-ed: any one of them hitting selects the
/// rule, whatever the others list. An `ext` entry equal, ignoring ASCII
/// case, to the file's non-empty extension selects it even when the rule
/// also lists types; so does a `type` entry accepting the kind's MIME type,
/// or a glob matching the relative path or the name; and a rule with no
/// matchers at all selects every file.
pub proof fn lemma_any_matcher_selects(
    r: RuleView,
    kind: KindView,
    ext: Seq<char>,
    globs: Seq<Seq<char>>,
    rel: Seq<char>,
    name: Seq<char>,
    k: int,
)
    ensures
        ext.len() > 0 && 0 <= k < r.ext.len() && eq_ignore_ascii_case(r.ext[k], ext)
            ==> rule_matches_with(r, kind, ext, globs, rel, name),
        ext.len() > 0 && 0 <= k < r.ext.len() && r.ext[k] == ext
            ==> rule_matches_with(r, kind, ext, globs, rel, name),
        0 <= k < r.types.len() && type_hits(r.types[k], mime_of(kind))
            ==> rule_matches_with(r, kind, ext, globs, rel, name),
        0 <= k < globs.len() && (glob_matches(globs[k], rel) || glob_matches(globs[k], name))
            ==> rule_matches_with(r, kind, ext, globs, rel, name),
        r.types.len() == 0 && r.ext.len() == 0 && r.glob.len() == 0
            ==> rule_matches_with(r, kind, ext, globs, rel, name),
{
    if 0 <= k < globs.len() && glob_matches(globs[k], rel) {
        assert(glob_any(globs, rel));
    }
    if 0 <= k < globs.len() && glob_matches(globs[k], name) {
        assert(glob_any(globs, name));
    }
}

} // verus!
