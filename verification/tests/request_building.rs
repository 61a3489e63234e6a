//! Tests of the request builder: endpoint paths, optional-field omission,
//! and the exact JSON bodies.

use libc_db::query::{ApiCommand, DumpQuery, LookupQuery};
use libc_db::symbols::parse_symbol_map;

#[test]
fn lookup_with_only_md5_serializes_only_md5() {
    let mut q = LookupQuery::new();
    q.md5 = Some("abc123".to_string());
    let req = ApiCommand::Find(q).gen_req();
    assert_eq!(req.path, "https://libc.rip/api/find");
    assert_eq!(req.body, "{\"md5\":\"abc123\"}");
}

#[test]
fn lookup_with_no_fields_serializes_empty_object() {
    let req = ApiCommand::Find(LookupQuery::new()).gen_req();
    assert_eq!(req.body, "{}");
}

#[test]
fn lookup_serializes_set_fields_in_order() {
    let mut q = LookupQuery::new();
    q.sha1 = Some("s1".to_string());
    q.id = Some("libc6_2.27".to_string());
    let req = ApiCommand::Find(q).gen_req();
    assert_eq!(req.body, "{\"sha1\":\"s1\",\"id\":\"libc6_2.27\"}");
}

#[test]
fn lookup_serializes_symbol_map_as_object() {
    let mut q = LookupQuery::new();
    q.symbols = Some(parse_symbol_map("strncpy: db0, system: 0x4f4e0").unwrap());
    let req = ApiCommand::Find(q).gen_req();
    assert_eq!(req.body, "{\"symbols\":{\"strncpy\":\"db0\",\"system\":\"0x4f4e0\"}}");
}

#[test]
fn download_flag_is_never_serialized() {
    let mut q = LookupQuery::new();
    q.md5 = Some("abc123".to_string());
    q.download = true;
    let req = ApiCommand::Find(q).gen_req();
    assert_eq!(req.body, "{\"md5\":\"abc123\"}");
    assert!(!req.body.contains("download"));

    let mut q2 = LookupQuery::new();
    q2.download = false;
    assert!(!ApiCommand::Find(q2).gen_req().body.contains("download"));

    let d = DumpQuery::new("x".to_string(), None).unwrap();
    assert!(!ApiCommand::Dump(d).gen_req().body.contains("download"));
}

#[test]
fn string_values_are_escaped() {
    let mut q = LookupQuery::new();
    q.md5 = Some("a\"b\\c\nd".to_string());
    let req = ApiCommand::Find(q).gen_req();
    assert_eq!(req.body, "{\"md5\":\"a\\\"b\\\\c\\nd\"}");
}

#[test]
fn control_characters_are_escaped_as_hex() {
    let mut q = LookupQuery::new();
    q.md5 = Some("a\u{1}b\u{1f}".to_string());
    let req = ApiCommand::Find(q).gen_req();
    assert_eq!(req.body, "{\"md5\":\"a\\u0001b\\u001f\"}");
}

#[test]
fn dump_request_puts_id_in_path_and_symbols_in_body() {
    let d = DumpQuery::new("libc6_2.27".to_string(), Some("strncat,sprintf")).unwrap();
    let req = ApiCommand::Dump(d).gen_req();
    assert_eq!(req.path, "https://libc.rip/api/libc/libc6_2.27");
    assert_eq!(req.body, "{\"symbols\":[\"strncat\",\"sprintf\"]}");
    assert!(!req.body.contains("libc6_2.27"));
}

#[test]
fn dump_with_empty_filter_serializes_empty_array() {
    let d = DumpQuery::new("libc6_2.27".to_string(), None).unwrap();
    let req = ApiCommand::Dump(d).gen_req();
    assert_eq!(req.body, "{\"symbols\":[]}");
}
