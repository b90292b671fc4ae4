use checkout_core::exclude::{
    from_overrides, patterns_from_file_bytes, query, Options, OutputFormat, PathsOrPatterns,
    PatternList, QueryError, Search, with_overrides,
};
use checkout_core::glob::{parse_pattern, pattern_matches, Pattern};
use checkout_core::index::{StagingEntry, StagingTable};

fn pat(text: &str) -> Pattern {
    parse_pattern(&text.as_bytes().to_vec())
}

fn list(source: &str, patterns: Vec<&str>) -> PatternList {
    PatternList {
        source: source.as_bytes().to_vec(),
        base: vec![],
        patterns: patterns.into_iter().map(pat).collect(),
    }
}

fn bytes_vec(items: Vec<&str>) -> Vec<Vec<u8>> {
    items.into_iter().map(|s| s.as_bytes().to_vec()).collect()
}

fn empty_index() -> StagingTable {
    StagingTable { version: 2, entries: vec![] }
}

fn human_opts(overrides: Vec<&str>, show: bool, stats: bool) -> Options {
    Options {
        format: OutputFormat::Human,
        overrides: bytes_vec(overrides),
        show_ignore_patterns: show,
        statistics: stats,
    }
}

#[test]
fn glob_star_matches_within_component() {
    assert!(pattern_matches(&b"*.log".to_vec(), &b"build.log".to_vec(), false));
    assert!(!pattern_matches(&b"*.log".to_vec(), &b"build.log.bak".to_vec(), false));
    assert!(pattern_matches(&b"a?c".to_vec(), &b"abc".to_vec(), false));
    assert!(!pattern_matches(&b"a?c".to_vec(), &b"a/c".to_vec(), false));
}

#[test]
fn basename_matching_applies_to_nested_paths() {
    assert!(pattern_matches(&b"*.log".to_vec(), &b"deep/dir/x.log".to_vec(), false));
    assert!(pattern_matches(&b"dir/*.log".to_vec(), &b"dir/x.log".to_vec(), false));
    assert!(!pattern_matches(&b"dir/*.log".to_vec(), &b"other/x.log".to_vec(), false));
}

#[test]
fn trailing_separator_restricts_to_directories() {
    assert!(pattern_matches(&b"build/".to_vec(), &b"build".to_vec(), true));
    assert!(!pattern_matches(&b"build/".to_vec(), &b"build".to_vec(), false));
}

#[test]
fn negation_prefix_is_parsed() {
    let p = parse_pattern(&b"!keep.log".to_vec());
    assert!(p.negative);
    assert_eq!(p.text, b"keep.log".to_vec());
}

#[test]
fn directory_local_negation_outranks_repository_rule() {
    let files = Search {
        lists: vec![
            list("repo/info/exclude", vec!["*.log"]),
            list("dir/.gitignore", vec!["!keep.log"]),
        ],
    };
    let session = with_overrides(&files, &vec![]);
    let kept = session.matching_exclude_pattern(&b"keep.log".to_vec(), false);
    let kept = kept.expect("the negation is the most specific match");
    assert!(kept.negative);
    assert_eq!(kept.source, b"dir/.gitignore".to_vec());
    let other = session.matching_exclude_pattern(&b"other.log".to_vec(), false);
    let other = other.expect("the repository rule matches");
    assert!(!other.negative);
    assert_eq!(other.source, b"repo/info/exclude".to_vec());
    assert_eq!(other.text, b"*.log".to_vec());
}

#[test]
fn negated_match_is_hidden_unless_requested() {
    let files = Search {
        lists: vec![
            list("repo/info/exclude", vec!["*.log"]),
            list("dir/.gitignore", vec!["!keep.log"]),
        ],
    };
    let hidden = query(
        &files,
        &empty_index(),
        PathsOrPatterns::Paths(bytes_vec(vec!["keep.log"])),
        &vec![None],
        human_opts(vec![], false, false),
    )
    .expect("human form");
    assert_eq!(hidden.out, b"::\tkeep.log\n".to_vec());
    let shown = query(
        &files,
        &empty_index(),
        PathsOrPatterns::Paths(bytes_vec(vec!["keep.log"])),
        &vec![None],
        human_opts(vec![], true, false),
    )
    .expect("human form");
    assert_eq!(shown.out, b"dir/.gitignore:1:!keep.log\tkeep.log\n".to_vec());
}

#[test]
fn overrides_outrank_file_based_patterns() {
    let files = Search { lists: vec![list("repo/info/exclude", vec!["*.log"])] };
    let session = with_overrides(&files, &bytes_vec(vec!["other.*"]));
    let m = session.matching_exclude_pattern(&b"other.log".to_vec(), false);
    let m = m.expect("the override matches");
    assert_eq!(m.source, b"".to_vec());
    assert_eq!(m.text, b"other.*".to_vec());
    assert_eq!(m.sequence_number, 1);
}

#[test]
fn empty_override_clears_prior_override_patterns() {
    let l = from_overrides(&bytes_vec(vec!["*.log", "", "*.tmp"]));
    assert_eq!(l.patterns.len(), 1);
    assert_eq!(l.patterns[0].text, b"*.tmp".to_vec());
    let files = Search { lists: vec![] };
    let session = with_overrides(&files, &bytes_vec(vec!["*.log", "", "*.tmp"]));
    assert!(session.matching_exclude_pattern(&b"x.log".to_vec(), false).is_none());
    assert!(session.matching_exclude_pattern(&b"x.tmp".to_vec(), false).is_some());
}

#[test]
fn unmatched_path_prints_the_empty_columns() {
    let files = Search { lists: vec![] };
    let r = query(
        &files,
        &empty_index(),
        PathsOrPatterns::Paths(bytes_vec(vec!["free.txt"])),
        &vec![None],
        human_opts(vec![], false, false),
    )
    .expect("human form");
    assert_eq!(r.out, b"::\tfree.txt\n".to_vec());
    assert_eq!(r.err, b"".to_vec());
}

#[test]
fn matched_path_prints_source_sequence_and_pattern() {
    let files = Search { lists: vec![list(".gitignore", vec!["a*", "*.log"])] };
    let r = query(
        &files,
        &empty_index(),
        PathsOrPatterns::Paths(bytes_vec(vec!["x.log"])),
        &vec![None],
        human_opts(vec![], false, false),
    )
    .expect("human form");
    assert_eq!(r.out, b".gitignore:2:*.log\tx.log\n".to_vec());
}

#[test]
fn json_form_fails_fast() {
    let files = Search { lists: vec![] };
    let r = query(
        &files,
        &empty_index(),
        PathsOrPatterns::Paths(vec![]),
        &vec![],
        Options {
            format: OutputFormat::Json,
            overrides: vec![],
            show_ignore_patterns: false,
            statistics: false,
        },
    );
    assert!(matches!(r, Err(QueryError::UnsupportedFormat)));
}

#[test]
fn pathspecs_expand_against_the_staging_table() {
    let index = StagingTable {
        version: 2,
        entries: vec![
            StagingEntry { path: b"a.txt".to_vec(), id: 1, mode: 0o100644, stage: 0 },
            StagingEntry { path: b"b.bin".to_vec(), id: 2, mode: 0o100644, stage: 0 },
        ],
    };
    let files = Search { lists: vec![list(".gitignore", vec!["*.txt"])] };
    let r = query(
        &files,
        &index,
        PathsOrPatterns::Patterns(bytes_vec(vec!["*.txt"])),
        &vec![],
        human_opts(vec![], false, false),
    )
    .expect("human form");
    assert_eq!(r.out, b".gitignore:1:*.txt\ta.txt\n".to_vec());
}

#[test]
fn pathspecs_selecting_nothing_are_an_error() {
    let files = Search { lists: vec![] };
    let r = query(
        &files,
        &empty_index(),
        PathsOrPatterns::Patterns(bytes_vec(vec!["*.none"])),
        &vec![],
        human_opts(vec![], false, false),
    );
    assert!(matches!(r, Err(QueryError::NoPathspecMatch)));
}

#[test]
fn statistics_count_lookups_and_directory_hits() {
    let files = Search { lists: vec![] };
    let r = query(
        &files,
        &empty_index(),
        PathsOrPatterns::Paths(bytes_vec(vec!["a/x.txt", "a/y.txt", "b/z.txt"])),
        &vec![None, None, None],
        human_opts(vec![], false, true),
    )
    .expect("human form");
    assert_eq!(r.err, b"3 1\n".to_vec());
}

#[test]
fn sequence_numbers_print_in_decimal_past_one_digit() {
    let texts: Vec<&str> =
        vec!["p1", "p2", "p3", "p4", "p5", "p6", "p7", "p8", "p9", "p10", "p11", "x.log"];
    let files = Search { lists: vec![list(".gitignore", texts)] };
    let r = query(
        &files,
        &empty_index(),
        PathsOrPatterns::Paths(bytes_vec(vec!["x.log"])),
        &vec![None],
        human_opts(vec![], false, false),
    )
    .expect("human form");
    assert_eq!(r.out, b".gitignore:12:x.log\tx.log\n".to_vec());
}

#[test]
fn override_list_of_one_empty_pattern_is_empty() {
    let l = from_overrides(&bytes_vec(vec![""]));
    assert_eq!(l.patterns.len(), 0);
}

#[test]
fn pattern_file_bytes_parse_line_by_line() {
    let content = b"*.log\n# a comment\n\n!keep.log\nbuild/".to_vec();
    let l = patterns_from_file_bytes(b".gitignore".to_vec(), vec![], &content);
    assert_eq!(l.source, b".gitignore".to_vec());
    assert_eq!(l.patterns.len(), 3);
    assert_eq!(l.patterns[0].text, b"*.log".to_vec());
    assert!(!l.patterns[0].negative);
    assert_eq!(l.patterns[1].text, b"keep.log".to_vec());
    assert!(l.patterns[1].negative);
    assert_eq!(l.patterns[2].text, b"build/".to_vec());
}

#[test]
fn pattern_file_without_trailing_newline_keeps_its_last_rule() {
    let l = patterns_from_file_bytes(vec![], vec![], &b"a\nb".to_vec());
    assert_eq!(l.patterns.len(), 2);
    assert_eq!(l.patterns[1].text, b"b".to_vec());
    let empty = patterns_from_file_bytes(vec![], vec![], &vec![]);
    assert_eq!(empty.patterns.len(), 0);
}
