//! Tests of the symbol-map parser and the dump-filter validation.

use libc_db::errors::Error;
use libc_db::query::{parse_symbol, parse_symbol_list, DumpQuery};
use libc_db::symbols::parse_symbol_map;

#[test]
fn parses_well_formed_map_with_whitespace() {
    let m = parse_symbol_map("strncpy: db0, system: 0x4f4e0").unwrap();
    assert_eq!(m.len(), 2);
    assert_eq!(m.get("strncpy"), Some(&"db0".to_string()));
    assert_eq!(m.get("system"), Some(&"0x4f4e0".to_string()));
    assert_eq!(m.get("printf"), None);
}

#[test]
fn rejects_field_without_colon() {
    let e = parse_symbol_map("strncpy db0").unwrap_err();
    assert_eq!(e, Error::MalformedInput("strncpy db0".to_string()));
}

#[test]
fn rejects_first_offending_field() {
    let e = parse_symbol_map("a: 1,b , c: 3").unwrap_err();
    assert_eq!(e, Error::MalformedInput("b ".to_string()));
}

#[test]
fn rejects_empty_name_or_address() {
    assert_eq!(
        parse_symbol_map(" : db0").unwrap_err(),
        Error::MalformedInput(" : db0".to_string())
    );
    assert_eq!(
        parse_symbol_map("a: , b: 1").unwrap_err(),
        Error::MalformedInput("a: ".to_string())
    );
    assert_eq!(parse_symbol_map("").unwrap_err(), Error::MalformedInput("".to_string()));
}

#[test]
fn later_field_overwrites_earlier_name() {
    let m = parse_symbol_map("a: 1, b: 2, a: 3").unwrap();
    assert_eq!(m.len(), 2);
    assert_eq!(m.get("a"), Some(&"3".to_string()));
    assert_eq!(m.get("b"), Some(&"2".to_string()));
}

#[test]
fn trim_stable_inputs_yield_identical_mappings() {
    let spaced = parse_symbol_map(" a : b ").unwrap();
    let tight = parse_symbol_map("a:b").unwrap();
    assert_eq!(spaced.len(), tight.len());
    assert_eq!(spaced.get("a"), tight.get("a"));
    assert_eq!(spaced.get("a"), Some(&"b".to_string()));
}

#[test]
fn reparsing_canonical_text_is_identity() {
    let m = parse_symbol_map(" strncpy : db0 ,\tsystem:  0x4f4e0").unwrap();
    let canonical = m.to_text();
    assert_eq!(canonical, "strncpy:db0,system:0x4f4e0");
    let m2 = parse_symbol_map(&canonical).unwrap();
    assert_eq!(m2.len(), m.len());
    assert_eq!(m2.get("strncpy"), m.get("strncpy"));
    assert_eq!(m2.get("system"), m.get("system"));
    assert_eq!(m2.to_text(), canonical);
}

#[test]
fn address_may_keep_inner_colon() {
    let m = parse_symbol_map("a: 0x1:2").unwrap();
    assert_eq!(m.get("a"), Some(&"0x1:2".to_string()));
}

#[test]
fn parse_symbol_trims_and_rejects_empty() {
    assert_eq!(parse_symbol(" strncat "), Ok("strncat".to_string()));
    assert_eq!(parse_symbol("  "), Err(Error::MalformedInput("Empty symbol".to_string())));
}

#[test]
fn parse_symbol_list_trims_entries() {
    let v = parse_symbol_list(" strncat ,\tsprintf").unwrap();
    assert_eq!(v, vec!["strncat".to_string(), "sprintf".to_string()]);
}

#[test]
fn parse_symbol_list_rejects_empty_entry_naming_whole_list() {
    let e = parse_symbol_list("strncat,,sprintf").unwrap_err();
    assert_eq!(e, Error::MalformedInput("strncat,,sprintf".to_string()));
}

#[test]
fn dump_query_requires_non_empty_id() {
    let e = DumpQuery::new("".to_string(), None).unwrap_err();
    assert_eq!(e, Error::MalformedInput("".to_string()));
}

#[test]
fn dump_query_validates_filter_at_construction() {
    let d = DumpQuery::new("libc6_2.27".to_string(), Some("strncat, sprintf")).unwrap();
    assert_eq!(d.id, "libc6_2.27");
    assert_eq!(d.symbols, vec!["strncat".to_string(), "sprintf".to_string()]);
    let e = DumpQuery::new("libc6_2.27".to_string(), Some("strncat, ,x")).unwrap_err();
    assert_eq!(e, Error::MalformedInput("strncat, ,x".to_string()));
    let none = DumpQuery::new("libc6_2.27".to_string(), None).unwrap();
    assert!(none.symbols.is_empty());
}
