use rwatcher::filter::PathFilter;
use rwatcher::ConfigError;

#[test]
fn empty_expression_includes_everything() {
    let f = PathFilter::parse("").unwrap();
    assert!(f.include_all);
    assert!(f.matches_file("anything.bin"));
    assert!(f.matches_file("no_extension"));
}

#[test]
fn all_files_token_includes_everything() {
    let f = PathFilter::parse("*.*").unwrap();
    assert!(f.include_all);
    assert!(f.matches_file("a.png"));
}

#[test]
fn all_files_token_wins_over_other_tokens() {
    let f = PathFilter::parse("*.txt;*.*").unwrap();
    assert!(f.include_all);
    assert!(f.matches_file("a.png"));
}

#[test]
fn extensions_and_file_names_match() {
    let f = PathFilter::parse("*.txt;*.pdf;notes.md").unwrap();
    assert!(!f.include_all);
    assert!(f.matches_file("a.txt"));
    assert!(f.matches_file("report.pdf"));
    assert!(f.matches_file("notes.md"));
    assert!(!f.matches_file("a.png"));
    assert!(!f.matches_file("other.md"));
}

#[test]
fn comma_is_a_separator_too() {
    let f = PathFilter::parse("*.txt,*.pdf").unwrap();
    assert!(f.matches_file("a.txt"));
    assert!(f.matches_file("a.pdf"));
    assert!(!f.matches_file("a.sql"));
}

#[test]
fn extension_is_after_the_last_dot() {
    let f = PathFilter::parse("*.gz").unwrap();
    assert!(f.matches_file("archive.tar.gz"));
    let g = PathFilter::parse("*.tar").unwrap();
    assert!(!g.matches_file("archive.tar.gz"));
}

#[test]
fn dot_leading_name_has_no_extension() {
    let f = PathFilter::parse("*.txt").unwrap();
    assert!(!f.matches_file(".txt"));
}

#[test]
fn exact_file_name_does_not_cover_other_names() {
    let f = PathFilter::parse("a.txt").unwrap();
    assert!(f.matches_file("a.txt"));
    assert!(!f.matches_file("b.txt"));
}

#[test]
fn malformed_tokens_are_rejected() {
    assert_eq!(PathFilter::parse("garbage").unwrap_err(), ConfigError::BadFilter);
    assert_eq!(PathFilter::parse("*.txt;garbage").unwrap_err(), ConfigError::BadFilter);
    assert_eq!(PathFilter::parse(";").unwrap_err(), ConfigError::BadFilter);
    assert_eq!(PathFilter::parse("*.").unwrap_err(), ConfigError::BadFilter);
    assert_eq!(PathFilter::parse(".txt").unwrap_err(), ConfigError::BadFilter);
    assert_eq!(PathFilter::parse("a.").unwrap_err(), ConfigError::BadFilter);
    assert_eq!(PathFilter::parse("a..b").unwrap_err(), ConfigError::BadFilter);
    assert_eq!(PathFilter::parse("*.t?t").unwrap_err(), ConfigError::BadFilter);
    assert_eq!(PathFilter::parse("*.txt;").unwrap_err(), ConfigError::BadFilter);
}

#[test]
fn valid_expression_with_every_form() {
    let f = PathFilter::parse("*.txt;data.csv,*.log").unwrap();
    assert!(!f.include_all);
    assert!(f.matches_file("x.txt"));
    assert!(f.matches_file("data.csv"));
    assert!(f.matches_file("run.log"));
    assert!(!f.matches_file("data.tsv"));
}
