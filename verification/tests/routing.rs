//! Tests of the status gate, the response router, and the download step.

use libc_db::errors::Error;
use libc_db::query::{ApiCommand, DumpQuery, LookupQuery};
use libc_db::response::{check_status, download_step, route, RouteAction};

#[test]
fn success_statuses_pass_the_gate() {
    assert!(check_status(200).is_ok());
    assert!(check_status(204).is_ok());
    assert!(check_status(299).is_ok());
}

#[test]
fn non_success_statuses_are_remote_rejections() {
    assert_eq!(check_status(199), Err(Error::RemoteRejection(199)));
    assert_eq!(check_status(301), Err(Error::RemoteRejection(301)));
    assert_eq!(check_status(404), Err(Error::RemoteRejection(404)));
    assert_eq!(check_status(500), Err(Error::RemoteRejection(500)));
}

#[test]
fn display_mode_prints_trimmed_body_verbatim() {
    let q = LookupQuery::new();
    let r = route(&ApiCommand::Find(q), "  {\"a\":1}\n").unwrap();
    assert_eq!(r, RouteAction::Print("{\"a\":1}".to_string()));
}

#[test]
fn dump_mode_prints_trimmed_body() {
    let d = DumpQuery::new("x".to_string(), None).unwrap();
    let r = route(&ApiCommand::Dump(d), "\toffsets here \n").unwrap();
    assert_eq!(r, RouteAction::Print("offsets here".to_string()));
}

#[test]
fn empty_lookup_result_prints_empty_array() {
    let mut q = LookupQuery::new();
    q.md5 = Some("abc123".to_string());
    q.download = false;
    let r = route(&ApiCommand::Find(q), "[]").unwrap();
    assert_eq!(r, RouteAction::Print("[]".to_string()));
}

#[test]
fn download_mode_decodes_record_urls() {
    let mut q = LookupQuery::new();
    q.download = true;
    let body = "[{\"id\": \"libc6_2.27\", \"download_url\": \"https://host/x/foo.so\"}]";
    let r = route(&ApiCommand::Find(q), body).unwrap();
    assert_eq!(r, RouteAction::Download(vec!["https://host/x/foo.so".to_string()]));
}

#[test]
fn download_mode_keeps_record_order() {
    let mut q = LookupQuery::new();
    q.download = true;
    let body = "[{\"download_url\": \"https://h/a.so\"}, {\"download_url\": \"https://h/b.so\"}]";
    let r = route(&ApiCommand::Find(q), body).unwrap();
    assert_eq!(
        r,
        RouteAction::Download(vec!["https://h/a.so".to_string(), "https://h/b.so".to_string()])
    );
}

#[test]
fn download_mode_with_empty_array_downloads_nothing() {
    let mut q = LookupQuery::new();
    q.download = true;
    let r = route(&ApiCommand::Find(q), "[]").unwrap();
    assert_eq!(r, RouteAction::Download(vec![]));
}

#[test]
fn download_mode_rejects_unexpected_shape() {
    let mut q = LookupQuery::new();
    q.download = true;
    assert_eq!(
        route(&ApiCommand::Find(q), "{\"not\": \"an array\"}"),
        Err(Error::ResponseShapeError)
    );
    let mut q2 = LookupQuery::new();
    q2.download = true;
    assert_eq!(
        route(&ApiCommand::Find(q2), "[{\"md5\": \"no url here\"}]"),
        Err(Error::ResponseShapeError)
    );
    let mut q3 = LookupQuery::new();
    q3.download = true;
    assert_eq!(route(&ApiCommand::Find(q3), "not json"), Err(Error::ResponseShapeError));
}

#[test]
fn filename_derives_from_last_path_segment() {
    let st = download_step("https://host/x/libs/libc6.so").unwrap();
    assert_eq!(st.outfile, "libc6.so");
    assert_eq!(st.url, "https://host/x/libs/libc6.so");
    assert_eq!(st.line, "https://host/x/libs/libc6.so -> libc6.so");
}

#[test]
fn progress_line_matches_url_and_outfile() {
    let st = download_step("https://host/x/foo.so").unwrap();
    assert_eq!(st.line, "https://host/x/foo.so -> foo.so");
    assert_eq!(st.outfile, "foo.so");
}

#[test]
fn url_without_slash_is_malformed() {
    assert_eq!(
        download_step("no-slash-here").unwrap_err(),
        Error::MalformedInput("no-slash-here".to_string())
    );
}

#[test]
fn url_with_trailing_slash_is_malformed() {
    assert_eq!(
        download_step("https://host/dir/").unwrap_err(),
        Error::MalformedInput("https://host/dir/".to_string())
    );
}

#[test]
fn error_messages_name_the_cause() {
    assert_eq!(
        Error::RemoteRejection(404).message(),
        "remote service rejected the request: status 404"
    );
    assert_eq!(Error::MalformedInput("b ".to_string()).message(), "malformed input: b ");
    assert_eq!(
        Error::ResponseShapeError.message(),
        "response body does not have the expected shape"
    );
    assert_eq!(
        Error::TransportFailure("connection refused".to_string()).message(),
        "transport failure: connection refused"
    );
    assert_eq!(
        Error::PersistenceFailure("disk full".to_string()).message(),
        "failed to write artifact: disk full"
    );
}
