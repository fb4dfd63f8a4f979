use config_parser::parser::Config;
use config_parser::parser::ConfigParser;
use config_parser::parser::FileConfigParser;
use config_parser::parser::ReadError;
use config_parser::store::ConfigMap;

fn parse(content: &str, delim: char) -> ConfigMap {
    FileConfigParser::new(delim).parse_content(content)
}

fn owned(s: &str) -> Option<String> {
    Some(s.to_string())
}

struct FailingParser;

impl ConfigParser for FailingParser {
    fn parse(&self, _source: &str) -> Result<ConfigMap, ReadError> {
        Err(ReadError)
    }
}

struct StaticParser;

impl ConfigParser for StaticParser {
    fn parse(&self, _source: &str) -> Result<ConfigMap, ReadError> {
        let mut m = ConfigMap::empty();
        m.insert("host".to_string(), "localhost".to_string());
        Ok(m)
    }
}

#[test]
fn well_formed_line_trims_spaces() {
    let m = parse("  k  =  v  ", '=');
    assert_eq!(m.get("k"), owned("v"));
}

#[test]
fn well_formed_line_trims_tabs() {
    let m = parse("\tk\t=\tv\t", '=');
    assert_eq!(m.get("k"), owned("v"));
}

#[test]
fn line_without_delimiter_is_skipped() {
    let m = parse("novalue\nx=1", '=');
    assert_eq!(m.get("novalue"), None);
    assert_eq!(m.get("x"), owned("1"));
}

#[test]
fn duplicate_key_last_occurrence_wins() {
    let m = parse("a=1\na=2", '=');
    assert_eq!(m.get("a"), owned("2"));
}

#[test]
fn duplicate_key_later_line_wins_with_others_between() {
    let m = parse("a=1\nb=9\na=3\nc=7", '=');
    assert_eq!(m.get("a"), owned("3"));
    assert_eq!(m.get("b"), owned("9"));
    assert_eq!(m.get("c"), owned("7"));
}

#[test]
fn round_trip_two_line_store() {
    let store = Config::from_map(parse("a=1\nb=2", '='));
    assert_eq!(store.get("a"), owned("1"));
    assert_eq!(store.get("b"), owned("2"));
    assert_eq!(store.get("c"), None);
}

#[test]
fn construction_failure_produces_no_store() {
    let r = Config::new(FailingParser, "no-such-source.cfg");
    assert!(matches!(r, Err(ReadError)));
}

#[test]
fn construction_success_wraps_parsed_mapping() {
    let r = Config::new(StaticParser, "unused");
    let store = r.ok().expect("parse succeeded");
    assert_eq!(store.get("host"), owned("localhost"));
    assert_eq!(store.get("port"), None);
}

#[test]
fn delimiter_is_configurable() {
    let m = parse("a=1", ':');
    assert_eq!(m.get("a"), None);
    let m = parse("a=1", '=');
    assert_eq!(m.get("a"), owned("1"));
    let m = parse("a:1", ':');
    assert_eq!(m.get("a"), owned("1"));
}

#[test]
fn parsing_twice_gives_equal_mappings() {
    let m1 = parse("a = 1\nb=2\nskip me\na=3", '=');
    let m2 = parse("a = 1\nb=2\nskip me\na=3", '=');
    for key in ["a", "b", "skip me", "skip", "c", ""] {
        assert_eq!(m1.get(key), m2.get(key));
    }
    assert_eq!(m1.get("a"), owned("3"));
}

#[test]
fn empty_content_has_no_entries() {
    let m = parse("", '=');
    assert_eq!(m.get(""), None);
    assert_eq!(m.get("a"), None);
}

#[test]
fn crlf_line_breaks_are_accepted() {
    let m = parse("a=1\r\nb=2\r\n", '=');
    assert_eq!(m.get("a"), owned("1"));
    assert_eq!(m.get("b"), owned("2"));
}

#[test]
fn trailing_newline_is_insignificant() {
    let m = parse("a=1\n", '=');
    assert_eq!(m.get("a"), owned("1"));
}

#[test]
fn empty_key_and_value_are_kept() {
    let m = parse(" = ", '=');
    assert_eq!(m.get(""), owned(""));
}

#[test]
fn line_splits_at_first_delimiter_only() {
    let m = parse("a==b", '=');
    assert_eq!(m.get("a"), owned("=b"));
}

#[test]
fn bare_carriage_return_does_not_break_a_line() {
    let m = parse("a=1\rb=2", '=');
    assert_eq!(m.get("a"), owned("1\rb=2"));
    assert_eq!(m.get("b"), None);
}

#[test]
fn unicode_whitespace_is_trimmed() {
    let m = parse("k\u{b} = \u{a0}v\u{3000}", '=');
    assert_eq!(m.get("k"), owned("v"));
}

#[test]
fn map_insert_overwrites_and_get_misses() {
    let mut m = ConfigMap::empty();
    assert_eq!(m.get("k"), None);
    m.insert("k".to_string(), "1".to_string());
    m.insert("k".to_string(), "2".to_string());
    m.insert("other".to_string(), "3".to_string());
    assert_eq!(m.get("k"), owned("2"));
    assert_eq!(m.get("other"), owned("3"));
    assert_eq!(m.get("missing"), None);
}
