//! Layered ignore-pattern matching and the per-path query report.
//!
//! Pattern sources are ordered from least to most specific; within a source
//! patterns keep their argument order. The most specific rule wins: the last
//! matching pattern over all applicable sources decides, and a negation there
//! un-ignores the path. Caller-supplied override patterns form a synthetic
//! source after every file-based one, so a matching override always outranks
//! file-based rules.

use vstd::prelude::*;
use crate::glob::{
    Pattern, PatternV, parse_pattern, parse_pattern_spec, pattern_match, pattern_matches,
    glob_match, glob_matches,
};
use crate::index::{StagingTable, EntryV};
use crate::tree::{clone_bytes, SLASH};
use crate::codec::copy_bytes_range;
use crate::bytepath::bytes_eq;

verus! {

/// Mathematical values of a sequence of patterns.
pub open spec fn pvs(s: Seq<Pattern>) -> Seq<PatternV> {
    s.map_values(|p: Pattern| p@)
}

/// Mathematical values of a sequence of byte vectors.
pub open spec fn bvs(s: Seq<Vec<u8>>) -> Seq<Seq<u8>> {
    s.map_values(|v: Vec<u8>| v@)
}

/// One pattern source: where it came from, the directory it is local to
/// (empty for repository-wide and override sources), and its rules in order.
pub struct PatternList {
    pub source: Vec<u8>,
    pub base: Vec<u8>,
    pub patterns: Vec<Pattern>,
}

/// Mathematical value of a pattern source.
pub struct ListV {
    pub source: Seq<u8>,
    pub base: Seq<u8>,
    pub patterns: Seq<PatternV>,
}

impl View for PatternList {
    type V = ListV;

    open spec fn view(&self) -> ListV {
        ListV { source: self.source@, base: self.base@, patterns: pvs(self.patterns@) }
    }
}

/// The layered sources of one query session, least specific first.
pub struct Search {
    pub lists: Vec<PatternList>,
}

/// Mathematical values of the layered sources.
pub open spec fn lvs(s: Seq<PatternList>) -> Seq<ListV> {
    s.map_values(|l: PatternList| l@)
}

/// A directory-local source applies only below its base directory.
pub open spec fn applies(l: ListV, path: Seq<u8>) -> bool {
    l.base.len() == 0 || (path.len() >= l.base.len() && path.take(l.base.len() as int) == l.base)
}

/// The path a directory-local source sees: relative to its base.
pub open spec fn rel_path(l: ListV, path: Seq<u8>) -> Seq<u8> {
    path.skip(l.base.len() as int)
}

/// The last matching pattern among the first `k` of `ps`, if any.
pub open spec fn last_match_in(ps: Seq<PatternV>, rel: Seq<u8>, is_dir: bool, k: int) -> Option<
    int,
>
    decreases k,
{
    if k <= 0 {
        Option::None
    } else if 0 < k <= ps.len() && pattern_match(ps[k - 1].text, rel, is_dir) {
        Option::Some(k - 1)
    } else {
        last_match_in(ps, rel, is_dir, k - 1)
    }
}

/// Where the most specific matching rule stands: list index and pattern index.
pub struct FoundV {
    pub li: int,
    pub pi: int,
}

/// The most specific matching rule among the first `k` sources: the last
/// applicable source holding a match decides, and within it the last
/// matching pattern.
pub open spec fn search_match(ls: Seq<ListV>, path: Seq<u8>, is_dir: bool, k: int) -> Option<
    FoundV,
>
    decreases k,
{
    if k <= 0 || k > ls.len() {
        Option::None
    } else {
        let l = ls[k - 1];
        if applies(l, path) && last_match_in(l.patterns, rel_path(l, path), is_dir, l.patterns.len() as int) is Some {
            Option::Some(
                FoundV {
                    li: k - 1,
                    pi: last_match_in(
                        l.patterns,
                        rel_path(l, path),
                        is_dir,
                        l.patterns.len() as int,
                    )->Some_0,
                },
            )
        } else {
            search_match(ls, path, is_dir, k - 1)
        }
    }
}

/// The most specific matching rule, reported to the caller.
pub struct MatchResult {
    pub text: Vec<u8>,
    pub negative: bool,
    pub source: Vec<u8>,
    pub sequence_number: usize,
}

/// Mathematical value of a reported rule.
pub struct MatchResultV {
    pub text: Seq<u8>,
    pub negative: bool,
    pub source: Seq<u8>,
    pub sequence_number: int,
}

impl View for MatchResult {
    type V = MatchResultV;

    open spec fn view(&self) -> MatchResultV {
        MatchResultV {
            text: self.text@,
            negative: self.negative,
            source: self.source@,
            sequence_number: self.sequence_number as int,
        }
    }
}

/// The report the search owes for a found rule: its text, polarity, source,
/// and one-based sequence number within the source.
pub open spec fn report_of(ls: Seq<ListV>, f: FoundV) -> MatchResultV {
    MatchResultV {
        text: ls[f.li].patterns[f.pi].text,
        negative: ls[f.li].patterns[f.pi].negative,
        source: ls[f.li].source,
        sequence_number: f.pi + 1,
    }
}

/// Whether a directory-local source applies to `path`.
fn applies_to(l: &PatternList, path: &Vec<u8>) -> (r: bool)
    ensures
        r == applies(l@, path@),
{
    let bn: usize = l.base.len();
    if bn == 0 {
        return true;
    }
    if path.len() < bn {
        return false;
    }
    let head = copy_bytes_range(path, 0, bn);
    let r = bytes_eq(&head, &l.base);
    proof {
        assert(head@ == path@.take(bn as int));
    }
    r
}

/// The last matching pattern of one source, scanned from the most recent.
fn last_match_of(l: &PatternList, rel: &Vec<u8>, is_dir: bool) -> (r: Option<usize>)
    ensures
        match r {
            Option::Some(pi) => pi < l.patterns@.len() && last_match_in(
                l@.patterns,
                rel@,
                is_dir,
                l@.patterns.len() as int,
            ) == Option::Some(pi as int),
            Option::None => last_match_in(l@.patterns, rel@, is_dir, l@.patterns.len() as int)
                is None,
        },
{
    let n: usize = l.patterns.len();
    let mut k: usize = n;
    while k > 0
        invariant
            k <= n,
            n == l.patterns@.len(),
            last_match_in(l@.patterns, rel@, is_dir, n as int) == last_match_in(
                l@.patterns,
                rel@,
                is_dir,
                k as int,
            ),
        decreases k,
    {
        let hit = pattern_matches(&l.patterns[k - 1].text, rel, is_dir);
        proof {
            assert(l@.patterns[k - 1] == l.patterns@[k - 1]@);
        }
        if hit {
            return Option::Some(k - 1);
        }
        k -= 1;
    }
    Option::None
}

impl Search {
    /// The most specific rule of this search matching `path`, or nothing.
    #[verifier::loop_isolation(false)]
    pub fn matching_exclude_pattern(&self, path: &Vec<u8>, is_dir: bool) -> (r: Option<
        MatchResult,
    >)
        ensures
            match r {
                Option::Some(m) => search_match(lvs(self.lists@), path@, is_dir, self.lists@.len() as int)
                    matches Option::Some(f) && m@ == report_of(lvs(self.lists@), f),
                Option::None => search_match(
                    lvs(self.lists@),
                    path@,
                    is_dir,
                    self.lists@.len() as int,
                ) is None,
            },
    {
        let ls = &self.lists;
        let n: usize = ls.len();
        let mut k: usize = n;
        while k > 0
            invariant
                k <= n,
                n == ls@.len(),
                search_match(lvs(ls@), path@, is_dir, n as int) == search_match(
                    lvs(ls@),
                    path@,
                    is_dir,
                    k as int,
                ),
            decreases k,
        {
            proof {
                assert(lvs(ls@)[k - 1] == ls@[k - 1]@);
            }
            if applies_to(&ls[k - 1], path) {
                let bn: usize = ls[k - 1].base.len();
                let rel = copy_bytes_range(path, bn, path.len());
                proof {
                    assert(rel@ == rel_path(lvs(ls@)[k - 1], path@));
                }
                match last_match_of(&ls[k - 1], &rel, is_dir) {
                    Option::Some(pi) => {
                        let pn: usize = ls[k - 1].patterns.len();
                        assert(pi < pn);
                        let m = MatchResult {
                            text: clone_bytes(&ls[k - 1].patterns[pi].text),
                            negative: ls[k - 1].patterns[pi].negative,
                            source: clone_bytes(&ls[k - 1].source),
                            sequence_number: pi + 1,
                        };
                        proof {
                            let lsv = lvs(ls@);
                            let f = FoundV { li: k - 1 as int, pi: pi as int };
                            assert(lsv[k - 1].patterns[pi as int] == ls@[k - 1].patterns@[pi as int]@);
                            assert(applies(lsv[k - 1], path@));
                            assert(last_match_in(
                                lsv[k - 1].patterns,
                                rel_path(lsv[k - 1], path@),
                                is_dir,
                                lsv[k - 1].patterns.len() as int,
                            ) == Option::Some(pi as int));
                            assert(search_match(lsv, path@, is_dir, k as int) == Option::Some(f));
                            assert(search_match(lsv, path@, is_dir, n as int) == Option::Some(f));
                            assert(m@ == report_of(lsv, f));
                        }
                        return Option::Some(m);
                    },
                    Option::None => {},
                }
            }
            k -= 1;
        }
        Option::None
    }
}

/// The override rules accumulated over the first `k` raw arguments: a raw
/// pattern is parsed and appended, and an explicitly empty one clears every
/// rule gathered before it instead of being ignored.
pub open spec fn override_accum(os: Seq<Seq<u8>>, k: int) -> Seq<PatternV>
    decreases k,
{
    if k <= 0 || k > os.len() {
        Seq::empty()
    } else if os[k - 1].len() == 0 {
        Seq::empty()
    } else {
        override_accum(os, k - 1).push(parse_pattern_spec(os[k - 1]))
    }
}

/// An empty raw pattern clears everything before it: the accumulated rules
/// depend only on the arguments after the last empty one.
pub proof fn lemma_override_clear(os: Seq<Seq<u8>>, i: int, k: int)
    requires
        0 <= i < k <= os.len(),
        os[i].len() == 0,
    ensures
        override_accum(os, k) == override_accum(os.skip(i + 1), k - i - 1),
    decreases k,
{
    if k == i + 1 {
        assert(override_accum(os, k) =~= Seq::<PatternV>::empty());
        assert(override_accum(os.skip(i + 1), 0) =~= Seq::<PatternV>::empty());
    } else {
        lemma_override_clear(os, i, k - 1);
        assert(os.skip(i + 1)[k - 1 - (i + 1)] == os[k - 1]);
    }
}

/// Build the synthetic highest-precedence source from caller overrides.
pub fn from_overrides(overrides: &Vec<Vec<u8>>) -> (r: PatternList)
    ensures
        r@.source == Seq::<u8>::empty(),
        r@.base == Seq::<u8>::empty(),
        r@.patterns == override_accum(bvs(overrides@), overrides@.len() as int),
{
    let n: usize = overrides.len();
    let mut pats: Vec<Pattern> = Vec::new();
    let mut i: usize = 0;
    while i < n
        invariant
            i <= n,
            n == overrides@.len(),
            pvs(pats@) == override_accum(bvs(overrides@), i as int),
        decreases n - i,
    {
        proof {
            assert(bvs(overrides@)[i as int] == overrides@[i as int]@);
        }
        if overrides[i].len() == 0 {
            pats = Vec::new();
            proof {
                assert(pvs(pats@) =~= Seq::<PatternV>::empty());
            }
        } else {
            let p = parse_pattern(&overrides[i]);
            let ghost pre = pats@;
            pats.push(p);
            proof {
                assert(pvs(pats@) =~= pvs(pre).push(p@));
            }
        }
        i += 1;
    }
    PatternList { source: Vec::new(), base: Vec::new(), patterns: pats }
}

/// A matching override always outranks every file-based rule: when the last
/// source (the overrides) holds a match, the search reports that source.
pub proof fn lemma_override_precedence(ls: Seq<ListV>, path: Seq<u8>, is_dir: bool)
    requires
        ls.len() > 0,
        applies(ls[ls.len() - 1], path),
        last_match_in(
            ls[ls.len() - 1].patterns,
            rel_path(ls[ls.len() - 1], path),
            is_dir,
            ls[ls.len() - 1].patterns.len() as int,
        ) is Some,
    ensures
        search_match(ls, path, is_dir, ls.len() as int) matches Option::Some(f) && f.li == ls.len()
            - 1,
{
}


/// Field and line separators of the report format.
pub const COLON: u8 = 58;

/// The tab between the rule columns and the path.
pub const TAB: u8 = 9;

/// The line terminator.
pub const NL: u8 = 10;

/// The separator between the two statistics counters.
pub const SPACE: u8 = 32;

/// Decimal digits of a number.
pub open spec fn dec_of(n: nat) -> Seq<u8>
    decreases n,
{
    if n < 10 {
        seq![(48 + n) as u8]
    } else {
        dec_of(n / 10).push((48 + n % 10) as u8)
    }
}

/// Render a number in decimal.
pub fn render_usize(n: usize) -> (r: Vec<u8>)
    ensures
        r@ == dec_of(n as nat),
    decreases n,
{
    if n < 10 {
        let mut v: Vec<u8> = Vec::new();
        v.push((48 + n) as u8);
        proof {
            assert(v@ =~= dec_of(n as nat));
        }
        v
    } else {
        let mut v = render_usize(n / 10);
        v.push((48 + n % 10) as u8);
        proof {
            assert(v@ =~= dec_of((n / 10) as nat).push((48 + n as nat % 10) as u8));
        }
        v
    }
}

/// One report line: `source:sequence:pattern<TAB>path` for a match,
/// `::<TAB>path` for none, each newline-terminated.
pub open spec fn line_for(m: Option<MatchResultV>, path: Seq<u8>) -> Seq<u8> {
    match m {
        Option::Some(mv) => mv.source + seq![COLON] + dec_of(mv.sequence_number as nat) + seq![
            COLON,
        ] + rendered_text(mv) + seq![TAB] + path + seq![NL],
        Option::None => seq![COLON, COLON, TAB] + path + seq![NL],
    }
}

/// A rule prints as it was written: negation keeps its prefix.
pub open spec fn rendered_text(mv: MatchResultV) -> Seq<u8> {
    if mv.negative {
        seq![crate::glob::BANG] + mv.text
    } else {
        mv.text
    }
}

/// The line owed for one path: the most specific match, a negation shown
/// only on request, and the unmatched form otherwise.
pub open spec fn query_line(ls: Seq<ListV>, path: Seq<u8>, is_dir: bool, show_ignore: bool) -> Seq<
    u8,
> {
    match search_match(ls, path, is_dir, ls.len() as int) {
        Option::Some(f) => if !report_of(ls, f).negative || show_ignore {
            line_for(Option::Some(report_of(ls, f)), path)
        } else {
            line_for(Option::None, path)
        },
        Option::None => line_for(Option::None, path),
    }
}

/// Whether metadata reported a directory.
pub open spec fn is_dir_of(k: Option<bool>) -> bool {
    k == Option::<bool>::Some(true)
}

/// The report lines for the first `k` paths, concatenated.
pub open spec fn render_lines(
    ls: Seq<ListV>,
    paths: Seq<Seq<u8>>,
    kinds: Seq<Option<bool>>,
    show_ignore: bool,
    k: int,
) -> Seq<u8>
    decreases k,
{
    if k <= 0 || k > paths.len() || paths.len() != kinds.len() {
        Seq::empty()
    } else {
        render_lines(ls, paths, kinds, show_ignore, k - 1) + query_line(
            ls,
            paths[k - 1],
            is_dir_of(kinds[k - 1]),
            show_ignore,
        )
    }
}

/// Whether any raw pathspec glob matches the path.
pub open spec fn matches_any(pats: Seq<Seq<u8>>, path: Seq<u8>) -> bool {
    exists|j: int| 0 <= j < pats.len() && glob_match(pats[j], path)
}

/// The staging-table paths selected by the pathspecs, in table order.
pub open spec fn expand_paths(pats: Seq<Seq<u8>>, es: Seq<EntryV>, k: int) -> Seq<Seq<u8>>
    decreases k,
{
    if k <= 0 || k > es.len() {
        Seq::empty()
    } else {
        expand_paths(pats, es, k - 1) + (if matches_any(pats, es[k - 1].path) {
            seq![es[k - 1].path]
        } else {
            Seq::empty()
        })
    }
}

/// The directory part of a path, up to and including the last separator.
pub open spec fn dirname(s: Seq<u8>) -> Seq<u8>
    decreases s.len(),
{
    if s.len() == 0 {
        Seq::empty()
    } else if s[s.len() - 1] == SLASH {
        s
    } else {
        dirname(s.take(s.len() - 1))
    }
}

proof fn lemma_dirname_split(s: Seq<u8>, j: int)
    requires
        0 <= j < s.len(),
        s[j] == SLASH,
        forall|i: int| j < i < s.len() ==> s[i] != SLASH,
    ensures
        dirname(s) == s.take(j + 1),
    decreases s.len(),
{
    if j == s.len() - 1 {
        assert(s.take(j + 1) =~= s);
    } else {
        let t = s.take(s.len() - 1);
        lemma_dirname_split(t, j);
        assert(t.take(j + 1) =~= s.take(j + 1));
    }
}

proof fn lemma_dirname_noslash(s: Seq<u8>)
    requires
        forall|i: int| 0 <= i < s.len() ==> s[i] != SLASH,
    ensures
        dirname(s) == Seq::<u8>::empty(),
    decreases s.len(),
{
    if s.len() > 0 {
        lemma_dirname_noslash(s.take(s.len() - 1));
    }
}

/// Extract the directory part of a path.
fn dirname_of(s: &Vec<u8>) -> (r: Vec<u8>)
    ensures
        r@ == dirname(s@),
{
    let n: usize = s.len();
    let mut j: usize = n;
    while j > 0
        invariant
            j <= n,
            n == s@.len(),
            forall|i: int| j <= i < n ==> s@[i] != SLASH,
        decreases j,
    {
        if s[j - 1] == SLASH {
            proof {
                lemma_dirname_split(s@, j - 1);
            }
            return copy_bytes_range(s, 0, j);
        }
        j -= 1;
    }
    proof {
        lemma_dirname_noslash(s@);
    }
    Vec::new()
}

/// How many of the first `k` lookups hit a directory already seen.
pub open spec fn hit_count(paths: Seq<Seq<u8>>, k: int) -> nat
    decreases k,
{
    if k <= 0 || k > paths.len() {
        0
    } else {
        hit_count(paths, k - 1) + (if exists|j: int|
            0 <= j < k - 1 && #[trigger] dirname(paths[j]) == dirname(paths[k - 1]) {
            1nat
        } else {
            0nat
        })
    }
}

/// Aggregate lookup statistics of one query session.
pub struct CacheStats {
    pub lookups: u64,
    pub cache_hits: u64,
}

/// The statistics line: lookups, a space, cache hits, a newline.
pub open spec fn stats_render(lookups: nat, hits: nat) -> Seq<u8> {
    dec_of(lookups) + seq![SPACE] + dec_of(hits) + seq![NL]
}

/// The report's output form.
#[derive(PartialEq, Eq, Structural, Clone, Copy)]
pub enum OutputFormat {
    Human,
    Json,
}

/// Options of one exclude query.
pub struct Options {
    pub format: OutputFormat,
    pub overrides: Vec<Vec<u8>>,
    pub show_ignore_patterns: bool,
    pub statistics: bool,
}

/// What the caller hands in: explicit paths, or pathspecs to expand against
/// the staging table.
pub enum PathsOrPatterns {
    Paths(Vec<Vec<u8>>),
    Patterns(Vec<Vec<u8>>),
}

/// Why a query was refused.
#[derive(Debug)]
pub enum QueryError {
    /// Only the human-readable report form exists.
    UnsupportedFormat,
    /// The pathspecs selected no staging-table entry.
    NoPathspecMatch,
}

/// What a query writes: the report stream and the diagnostics stream.
pub struct QueryOutput {
    pub out: Vec<u8>,
    pub err: Vec<u8>,
}

/// The sources of a session: the file-based sources, least specific first,
/// with the overrides as one synthetic most specific source after them.
pub open spec fn session_lists(files: Seq<ListV>, ov: Seq<Seq<u8>>) -> Seq<ListV> {
    files.push(
        ListV {
            source: Seq::empty(),
            base: Seq::empty(),
            patterns: override_accum(ov, ov.len() as int),
        },
    )
}

/// Copy a pattern.
fn clone_pattern(p: &Pattern) -> (r: Pattern)
    ensures
        r@ == p@,
{
    Pattern { text: clone_bytes(&p.text), negative: p.negative }
}

/// Copy a pattern source.
fn clone_list(l: &PatternList) -> (r: PatternList)
    ensures
        r@ == l@,
{
    let mut pats: Vec<Pattern> = Vec::new();
    let n: usize = l.patterns.len();
    let mut i: usize = 0;
    while i < n
        invariant
            i <= n,
            n == l.patterns@.len(),
            pvs(pats@) =~= pvs(l.patterns@).take(i as int),
        decreases n - i,
    {
        let ghost pre = pats@;
        pats.push(clone_pattern(&l.patterns[i]));
        proof {
            assert(pvs(pats@) =~= pvs(pre).push(l.patterns@[i as int]@));
            assert(pvs(pats@) =~= pvs(l.patterns@).take(i as int + 1));
        }
        i += 1;
    }
    proof {
        assert(pvs(l.patterns@).take(n as int) =~= pvs(l.patterns@));
    }
    PatternList { source: clone_bytes(&l.source), base: clone_bytes(&l.base), patterns: pats }
}

/// Seed a session: the file-based sources with the overrides appended as the
/// highest-precedence source.
pub fn with_overrides(files: &Search, overrides: &Vec<Vec<u8>>) -> (r: Search)
    ensures
        lvs(r.lists@) == session_lists(lvs(files.lists@), bvs(overrides@)),
{
    let mut lists: Vec<PatternList> = Vec::new();
    let n: usize = files.lists.len();
    let mut i: usize = 0;
    while i < n
        invariant
            i <= n,
            n == files.lists@.len(),
            lvs(lists@) =~= lvs(files.lists@).take(i as int),
        decreases n - i,
    {
        let ghost pre = lists@;
        lists.push(clone_list(&files.lists[i]));
        proof {
            assert(lvs(lists@) =~= lvs(pre).push(files.lists@[i as int]@));
            assert(lvs(lists@) =~= lvs(files.lists@).take(i as int + 1));
        }
        i += 1;
    }
    let ov = from_overrides(overrides);
    let ghost pre = lists@;
    lists.push(ov);
    proof {
        assert(lvs(files.lists@).take(n as int) =~= lvs(files.lists@));
        assert(lvs(lists@) =~= lvs(pre).push(ov@));
        assert(lvs(lists@) =~= session_lists(lvs(files.lists@), bvs(overrides@)));
    }
    Search { lists }
}



/// Whether any pathspec selects the path.
fn matches_any_of(pats: &Vec<Vec<u8>>, path: &Vec<u8>) -> (r: bool)
    ensures
        r == matches_any(bvs(pats@), path@),
{
    let n: usize = pats.len();
    let mut j: usize = 0;
    while j < n
        invariant
            j <= n,
            n == pats@.len(),
            forall|i: int| 0 <= i < j ==> !glob_match(bvs(pats@)[i], path@),
        decreases n - j,
    {
        let hit = glob_matches(&pats[j], path);
        proof {
            assert(bvs(pats@)[j as int] == pats@[j as int]@);
        }
        if hit {
            return true;
        }
        j += 1;
    }
    false
}

/// Expand pathspecs against the staging table, in table order.
#[verifier::loop_isolation(false)]
fn expand(pats: &Vec<Vec<u8>>, index: &StagingTable) -> (r: Vec<Vec<u8>>)
    ensures
        bvs(r@) == expand_paths(bvs(pats@), index@.entries, index@.entries.len() as int),
{
    let mut out: Vec<Vec<u8>> = Vec::new();
    let n: usize = index.entries.len();
    let mut k: usize = 0;
    while k < n
        invariant
            k <= n,
            bvs(out@) == expand_paths(bvs(pats@), index@.entries, k as int),
        decreases n - k,
    {
        proof {
            assert(index@.entries[k as int] == index.entries@[k as int]@);
        }
        let hit = matches_any_of(pats, &index.entries[k].path);
        if hit {
            let ghost pre = out@;
            out.push(clone_bytes(&index.entries[k].path));
            proof {
                assert(bvs(out@) =~= bvs(pre).push(index@.entries[k as int].path));
                assert(bvs(pre).push(index@.entries[k as int].path) =~= expand_paths(
                    bvs(pats@),
                    index@.entries,
                    k as int + 1,
                ));
            }
        } else {
            proof {
                assert(bvs(out@) + Seq::<Seq<u8>>::empty() =~= bvs(out@));
            }
        }
        k += 1;
    }
    out
}

/// Append the report line for one decided match.
fn append_line(out: &mut Vec<u8>, m: &Option<MatchResult>, path: &Vec<u8>)
    ensures
        final(out)@ == old(out)@ + line_for(
            match m {
                Option::Some(x) => Option::Some(x@),
                Option::None => Option::None,
            },
            path@,
        ),
{
    match m {
        Option::Some(x) => {
            crate::tree::append_bytes(out, &x.source);
            out.push(COLON);
            let num = render_usize(x.sequence_number);
            crate::tree::append_bytes(out, &num);
            out.push(COLON);
            if x.negative {
                out.push(crate::glob::BANG);
            }
            crate::tree::append_bytes(out, &x.text);
            out.push(TAB);
            crate::tree::append_bytes(out, path);
            out.push(NL);
            proof {
                assert(out@ =~= old(out)@ + line_for(Option::Some(x@), path@));
            }
        },
        Option::None => {
            out.push(COLON);
            out.push(COLON);
            out.push(TAB);
            crate::tree::append_bytes(out, path);
            out.push(NL);
            proof {
                assert(out@ =~= old(out)@ + line_for(Option::None, path@));
            }
        },
    }
}

/// Produce the report lines for a set of paths of known kinds.
#[verifier::loop_isolation(false)]
fn process_paths(
    session: &Search,
    paths: &Vec<Vec<u8>>,
    kinds: &Vec<Option<bool>>,
    show_ignore: bool,
) -> (out: Vec<u8>)
    requires
        kinds@.len() == paths@.len(),
    ensures
        out@ == render_lines(
            lvs(session.lists@),
            bvs(paths@),
            kinds@,
            show_ignore,
            paths@.len() as int,
        ),
{
    let mut out: Vec<u8> = Vec::new();
    let n: usize = paths.len();
    let mut i: usize = 0;
    proof {
        assert(out@ =~= render_lines(lvs(session.lists@), bvs(paths@), kinds@, show_ignore, 0));
    }
    while i < n
        invariant
            i <= n,
            out@ == render_lines(lvs(session.lists@), bvs(paths@), kinds@, show_ignore, i as int),
        decreases n - i,
    {
        let is_dir = match kinds[i] {
            Option::Some(true) => true,
            _ => false,
        };
        proof {
            assert(is_dir == is_dir_of(kinds@[i as int]));
            assert(bvs(paths@)[i as int] == paths@[i as int]@);
        }
        let found = session.matching_exclude_pattern(&paths[i], is_dir);
        let eff: Option<MatchResult> = match found {
            Option::Some(m) => {
                if m.negative && !show_ignore {
                    Option::None
                } else {
                    Option::Some(m)
                }
            },
            Option::None => Option::None,
        };
        let ghost pre = out@;
        append_line(&mut out, &eff, &paths[i]);
        proof {
            assert(out@ == pre + query_line(
                lvs(session.lists@),
                bvs(paths@)[i as int],
                is_dir,
                show_ignore,
            ));
        }
        i += 1;
    }
    out
}

/// Whether the directory of path `i` was already looked up.
fn dir_seen(paths: &Vec<Vec<u8>>, i: usize) -> (r: bool)
    requires
        i < paths@.len(),
    ensures
        r == exists|j: int|
            0 <= j < i && #[trigger] dirname(bvs(paths@)[j]) == dirname(bvs(paths@)[i as int]),
{
    let d = dirname_of(&paths[i]);
    let mut j: usize = 0;
    while j < i
        invariant
            j <= i < paths@.len(),
            d@ == dirname(paths@[i as int]@),
            forall|x: int| 0 <= x < j ==> dirname(bvs(paths@)[x]) != dirname(bvs(paths@)[i as int]),
        decreases i - j,
    {
        let dj = dirname_of(&paths[j]);
        proof {
            assert(bvs(paths@)[j as int] == paths@[j as int]@);
        }
        if bytes_eq(&dj, &d) {
            return true;
        }
        j += 1;
    }
    false
}

/// Count the lookups and the directory cache hits over a set of paths.
#[verifier::loop_isolation(false)]
fn count_stats(paths: &Vec<Vec<u8>>) -> (r: (usize, usize))
    ensures
        r.0 == paths@.len(),
        r.1 == hit_count(bvs(paths@), paths@.len() as int),
{
    let n: usize = paths.len();
    let mut hits: usize = 0;
    let mut i: usize = 0;
    while i < n
        invariant
            i <= n,
            hits == hit_count(bvs(paths@), i as int),
            hits <= i,
        decreases n - i,
    {
        if dir_seen(paths, i) {
            hits += 1;
        }
        i += 1;
    }
    (n, hits)
}

/// Render the statistics line for a set of paths.
fn render_stats(paths: &Vec<Vec<u8>>) -> (r: Vec<u8>)
    ensures
        r@ == stats_render(paths@.len() as nat, hit_count(bvs(paths@), paths@.len() as int)),
{
    let (lookups, hits) = count_stats(paths);
    let mut err: Vec<u8> = Vec::new();
    let a = render_usize(lookups);
    crate::tree::append_bytes(&mut err, &a);
    err.push(SPACE);
    let b = render_usize(hits);
    crate::tree::append_bytes(&mut err, &b);
    err.push(NL);
    proof {
        assert(err@ =~= stats_render(paths@.len() as nat, hit_count(
            bvs(paths@),
            paths@.len() as int,
        )));
    }
    err
}

/// Report, for each requested path, the most specific ignore rule that
/// applies, in the session's report format.
///
/// Only the human-readable form exists: any other format is refused at once.
/// Explicit paths are judged as given, with their directory-ness as the
/// caller observed it; pathspecs are first expanded against the staging
/// table and refused when they select nothing. Negated (un-ignoring) matches
/// are reported only on request. When statistics are requested, the
/// diagnostics stream carries the lookup and cache-hit counts.
pub fn query(
    files: &Search,
    index: &StagingTable,
    input: PathsOrPatterns,
    path_kinds: &Vec<Option<bool>>,
    opts: Options,
) -> (r: Result<QueryOutput, QueryError>)
    requires
        input is Paths ==> path_kinds@.len() == input->Paths_0@.len(),
    ensures
        opts.format == OutputFormat::Json ==> (r matches Result::Err(
            QueryError::UnsupportedFormat,
        )),
        (opts.format == OutputFormat::Human && input is Paths) ==> {
            let ps = input->Paths_0;
            r matches Result::Ok(q) && {
                &&& q.out@ == render_lines(
                    session_lists(lvs(files.lists@), bvs(opts.overrides@)),
                    bvs(ps@),
                    path_kinds@,
                    opts.show_ignore_patterns,
                    ps@.len() as int,
                )
                &&& (opts.statistics ==> q.err@ == stats_render(
                    ps@.len() as nat,
                    hit_count(bvs(ps@), ps@.len() as int),
                ))
                &&& (!opts.statistics ==> q.err@ == Seq::<u8>::empty())
            }
        },
        (opts.format == OutputFormat::Human && input is Patterns) ==> {
            let ex = expand_paths(
                bvs(input->Patterns_0@),
                index@.entries,
                index@.entries.len() as int,
            );
            &&& (ex.len() == 0 ==> (r matches Result::Err(QueryError::NoPathspecMatch)))
            &&& (ex.len() > 0 ==> (r matches Result::Ok(q) && {
                &&& q.out@ == render_lines(
                    session_lists(lvs(files.lists@), bvs(opts.overrides@)),
                    ex,
                    Seq::new(ex.len(), |i: int| Option::Some(false)),
                    opts.show_ignore_patterns,
                    ex.len() as int,
                )
                &&& (opts.statistics ==> q.err@ == stats_render(
                    ex.len() as nat,
                    hit_count(ex, ex.len() as int),
                ))
                &&& (!opts.statistics ==> q.err@ == Seq::<u8>::empty())
            }))
        },
{
    match opts.format {
        OutputFormat::Json => {
            return Result::Err(QueryError::UnsupportedFormat);
        },
        OutputFormat::Human => {},
    }
    let session = with_overrides(files, &opts.overrides);
    match input {
        PathsOrPatterns::Paths(ps) => {
            let out = process_paths(&session, &ps, path_kinds, opts.show_ignore_patterns);
            let err: Vec<u8> = if opts.statistics {
                render_stats(&ps)
            } else {
                Vec::new()
            };
            Result::Ok(QueryOutput { out, err })
        },
        PathsOrPatterns::Patterns(pats) => {
            let ex = expand(&pats, index);
            if ex.len() == 0 {
                return Result::Err(QueryError::NoPathspecMatch);
            }
            let n: usize = ex.len();
            let mut kinds: Vec<Option<bool>> = Vec::new();
            let mut i: usize = 0;
            while i < n
                invariant
                    i <= n,
                    kinds@.len() == i,
                    forall|j: int| 0 <= j < i ==> kinds@[j] == Option::<bool>::Some(false),
                decreases n - i,
            {
                kinds.push(Option::Some(false));
                i += 1;
            }
            proof {
                assert(kinds@ =~= Seq::new(bvs(ex@).len(), |i: int| Option::Some(false)));
            }
            let out = process_paths(&session, &ex, &kinds, opts.show_ignore_patterns);
            let err: Vec<u8> = if opts.statistics {
                render_stats(&ex)
            } else {
                Vec::new()
            };
            Result::Ok(QueryOutput { out, err })
        },
    }
}



/// The comment marker opening a skipped line in a pattern file.
pub const HASH: u8 = 35;

/// The position of the first line break, or the length when there is none.
pub open spec fn first_nl(s: Seq<u8>) -> int
    decreases s.len(),
{
    if s.len() == 0 {
        0
    } else if s[0] == NL {
        0
    } else {
        1 + first_nl(s.skip(1))
    }
}

proof fn lemma_first_nl_bounds(s: Seq<u8>)
    ensures
        0 <= first_nl(s) <= s.len(),
        first_nl(s) < s.len() ==> s[first_nl(s)] == NL,
        forall|i: int| 0 <= i < first_nl(s) ==> s[i] != NL,
    decreases s.len(),
{
    if s.len() == 0 || s[0] == NL {
    } else {
        lemma_first_nl_bounds(s.skip(1));
        assert forall|i: int| 0 <= i < first_nl(s) implies s[i] != NL by {
            if i > 0 {
                assert(s.skip(1)[i - 1] == s[i]);
            }
        }
        if first_nl(s) < s.len() {
            assert(s.skip(1)[first_nl(s) - 1] == s[first_nl(s)]);
        }
    }
}

proof fn lemma_first_nl_at(s: Seq<u8>, j: int)
    requires
        0 <= j <= s.len(),
        j < s.len() ==> s[j] == NL,
        forall|i: int| 0 <= i < j ==> s[i] != NL,
        j == s.len() ==> forall|i: int| 0 <= i < s.len() ==> s[i] != NL,
    ensures
        first_nl(s) == j,
    decreases s.len(),
{
    if s.len() == 0 {
    } else if s[0] == NL {
        assert(j == 0);
    } else {
        assert(j >= 1);
        lemma_first_nl_at(s.skip(1), j - 1);
    }
}

/// The rules a pattern-file image holds: one rule per line, in order, with
/// empty lines and `#` comment lines skipped, and `!` marking negation.
pub open spec fn file_patterns(content: Seq<u8>) -> Seq<PatternV>
    decreases content.len(),
{
    if content.len() == 0 {
        Seq::empty()
    } else {
        let nl = first_nl(content);
        if 0 <= nl <= content.len() {
            let line = content.take(nl);
            let rest = if nl < content.len() {
                content.skip(nl + 1)
            } else {
                Seq::empty()
            };
            let here: Seq<PatternV> = if line.len() == 0 || line[0] == HASH {
                Seq::empty()
            } else {
                seq![parse_pattern_spec(line)]
            };
            here + file_patterns(rest)
        } else {
            Seq::empty()
        }
    }
}

/// Read one pattern source from the bytes of its file.
#[verifier::loop_isolation(false)]
pub fn patterns_from_file_bytes(source: Vec<u8>, base: Vec<u8>, content: &Vec<u8>) -> (r:
    PatternList)
    ensures
        r@.source == source@,
        r@.base == base@,
        r@.patterns == file_patterns(content@),
{
    let n: usize = content.len();
    let mut pats: Vec<Pattern> = Vec::new();
    let mut pos: usize = 0;
    proof {
        assert(content@.skip(0) =~= content@);
        assert(pvs(pats@) + file_patterns(content@.skip(0)) =~= file_patterns(content@));
    }
    while pos < n
        invariant
            pos <= n,
            pvs(pats@) + file_patterns(content@.skip(pos as int)) == file_patterns(content@),
        decreases n - pos,
    {
        let ghost tailseq = content@.skip(pos as int);
        let mut j: usize = pos;
        while j < n && content[j] != NL
            invariant
                pos <= j <= n,
                forall|i: int| pos <= i < j ==> content@[i] != NL,
            decreases n - j,
        {
            j += 1;
        }
        proof {
            assert forall|i: int| 0 <= i < j - pos implies tailseq[i] != NL by {
                assert(tailseq[i] == content@[pos + i]);
            }
            if j < n {
                assert(tailseq[j - pos] == content@[j as int]);
                lemma_first_nl_at(tailseq, j - pos);
            } else {
                assert forall|i: int| 0 <= i < tailseq.len() implies tailseq[i] != NL by {
                    assert(tailseq[i] == content@[pos + i]);
                }
                lemma_first_nl_at(tailseq, j - pos);
            }
            assert(first_nl(tailseq) == j - pos);
        }
        let line = copy_bytes_range(content, pos, j);
        proof {
            assert(line@ =~= tailseq.take(j - pos));
        }
        if line.len() > 0 && line[0] != HASH {
            let p = parse_pattern(&line);
            let ghost pre = pats@;
            pats.push(p);
            proof {
                assert(pvs(pats@) =~= pvs(pre).push(p@));
                assert(pvs(pre).push(p@) =~= pvs(pre) + seq![parse_pattern_spec(line@)]);
            }
        } else {
            proof {
                assert(pvs(pats@) + Seq::<PatternV>::empty() =~= pvs(pats@));
            }
        }
        let next: usize = if j < n {
            j + 1
        } else {
            n
        };
        proof {
            if j < n {
                assert(tailseq.skip(j - pos + 1) =~= content@.skip(next as int));
            } else {
                assert(content@.skip(next as int) =~= Seq::<u8>::empty());
            }
            assert((pvs(pats@) + file_patterns(content@.skip(next as int)))
                =~= file_patterns(content@)) by {
                assert(file_patterns(tailseq) == (if tailseq.take(j - pos).len() == 0
                    || tailseq.take(j - pos)[0] == HASH {
                    Seq::<PatternV>::empty()
                } else {
                    seq![parse_pattern_spec(tailseq.take(j - pos))]
                }) + file_patterns(content@.skip(next as int)));
            }
        }
        pos = next;
    }
    proof {
        assert(content@.skip(n as int).len() == 0);
        assert(pvs(pats@) + Seq::<PatternV>::empty() =~= pvs(pats@));
    }
    PatternList { source, base, patterns: pats }
}


} // verus!
